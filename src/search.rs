use vstd::prelude::*;
use vstd::utf8::is_ascii_chars;

use crate::text::{
    ascii_lowered, contains_seq, lemma_lines_occur_in_text, line_contains, line_len, lines_of,
    lower_of, lowercase, split_lines, strip_cr, views,
};

verus! {

/// A line matches when the query occurs in it, letter case included.
pub open spec fn has_query(query: Seq<char>) -> spec_fn(Seq<char>) -> bool {
    |l: Seq<char>| contains_seq(l, query)
}

/// A line matches when the lowercased query occurs in the lowercased line.
pub open spec fn has_query_folded(query: Seq<char>) -> spec_fn(Seq<char>) -> bool {
    |l: Seq<char>| contains_seq(lower_of(l), lower_of(query))
}

/// The lines of `content` that hold `query`, in their order.
pub open spec fn matching_lines(query: Seq<char>, content: Seq<char>) -> Seq<Seq<char>> {
    lines_of(content).filter(has_query(query))
}

/// The lines of `content` that hold `query` when both are lowercased, in their order and
/// as they stand in `content`.
pub open spec fn matching_lines_folded(query: Seq<char>, content: Seq<char>) -> Seq<Seq<char>> {
    lines_of(content).filter(has_query_folded(query))
}

/// Every line of `contents` in which `query` occurs, letter case included, in order.
pub fn search<'a>(query: &str, contents: &'a str) -> (r: Vec<&'a str>)
    ensures
        views(r@) == matching_lines(query@, contents@),
{
    let lines = split_lines(contents);
    let ghost all = lines_of(contents@);
    let mut results: Vec<&'a str> = Vec::new();
    for i in 0..lines.len()
        invariant
            views(lines@) == all,
            views(results@) == all.take(i as int).filter(has_query(query@)),
    {
        let line: &'a str = lines[i];
        proof {
            assert(all[i as int] == line@);
            assert(all.take(i + 1) =~= all.take(i as int).push(line@));
            all.take(i as int).lemma_filter_push(line@, has_query(query@));
        }
        if line_contains(line, query) {
            let ghost before = results@;
            results.push(line);
            assert(views(results@) =~= views(before).push(line@));
        }
    }
    proof {
        assert(all.take(lines@.len() as int) =~= all);
    }
    results
}

/// Every line of `contents` in which `query` occurs once both are lowercased, in order and
/// with the letter case they have in `contents`. The empty query takes every line; on ASCII
/// text every line that `search` finds is found here too.
pub fn search_case_insensitive<'a>(query: &str, contents: &'a str) -> (r: Vec<&'a str>)
    ensures
        views(r@) == matching_lines_folded(query@, contents@),
        query@.len() == 0 ==> views(r@) == lines_of(contents@),
        is_ascii_chars(query@) && is_ascii_chars(contents@) ==> forall|l: Seq<char>|
            #[trigger] matching_lines(query@, contents@).contains(l) ==> views(r@).contains(l),
{
    let lowered_query = lowercase(query);
    let lines = split_lines(contents);
    let ghost all = lines_of(contents@);
    let mut results: Vec<&'a str> = Vec::new();
    for i in 0..lines.len()
        invariant
            views(lines@) == all,
            all == lines_of(contents@),
            lowered_query@ == lower_of(query@),
            query@.len() == 0 ==> lower_of(query@).len() == 0,
            is_ascii_chars(query@) ==> ascii_lowered(query@, lower_of(query@)),
            forall|k: int|
                0 <= k < i && is_ascii_chars(all[k]) ==> ascii_lowered(
                    all[k],
                    #[trigger] lower_of(all[k]),
                ),
            views(results@) == all.take(i as int).filter(has_query_folded(query@)),
    {
        let line: &'a str = lines[i];
        let lowered_line = lowercase(line);
        proof {
            assert(all[i as int] == line@);
            assert(all.take(i + 1) =~= all.take(i as int).push(line@));
            all.take(i as int).lemma_filter_push(line@, has_query_folded(query@));
        }
        if line_contains(lowered_line.as_str(), lowered_query.as_str()) {
            let ghost before = results@;
            results.push(line);
            assert(views(results@) =~= views(before).push(line@));
        }
    }
    proof {
        assert(all.take(lines@.len() as int) =~= all);
        if query@.len() == 0 {
            assert forall|k: int| 0 <= k < all.len() implies #[trigger] has_query_folded(query@)(
                all[k],
            ) by {
                assert(lower_of(all[k]).subrange(0, 0) =~= lower_of(query@));
            }
            lemma_filter_keeps_all(all, has_query_folded(query@));
        }
        if is_ascii_chars(query@) && is_ascii_chars(contents@) {
            lemma_lines_ascii(contents@);
            lemma_filter_members(all, has_query(query@));
            assert forall|l: Seq<char>| #[trigger]
                matching_lines(query@, contents@).contains(l) implies views(
                results@,
            ).contains(l) by {
                let k = choose|k: int| 0 <= k < all.len() && all[k] == l;
                lemma_lowered_occurrence(l, query@, lower_of(l), lower_of(query@));
                all.lemma_filter_contains(has_query_folded(query@), k);
            }
        }
    }
    results
}

/// `a` is `b` with some items left out: the items of `a` stand in `b` in the same order.
pub open spec fn is_subsequence<A>(a: Seq<A>, b: Seq<A>) -> bool {
    exists|idx: Seq<int>|
        #![trigger idx.len()]
        idx.len() == a.len() && (forall|k: int|
            0 <= k < a.len() ==> 0 <= #[trigger] idx[k] < b.len() && a[k] == b[idx[k]]) && (
        forall|k: int, m: int| 0 <= k < m < a.len() ==> #[trigger] idx[k] < #[trigger] idx[m])
}

/// The case-sensitive search returns exactly the lines of the content that hold the query:
/// each line it returns is a line of the content holding the query, and each line of the
/// content that it leaves out does not hold it.
pub proof fn lemma_search_exact(query: Seq<char>, content: Seq<char>)
    ensures
        forall|l: Seq<char>| #[trigger]
            matching_lines(query, content).contains(l) <==> lines_of(content).contains(l)
                && contains_seq(l, query),
{
    lemma_filter_members(lines_of(content), has_query(query));
}

/// Each line that either search returns occurs in the content as it stands there.
pub proof fn lemma_results_occur_in_content(query: Seq<char>, content: Seq<char>)
    ensures
        forall|l: Seq<char>| #[trigger]
            matching_lines(query, content).contains(l) ==> contains_seq(content, l),
        forall|l: Seq<char>| #[trigger]
            matching_lines_folded(query, content).contains(l) ==> contains_seq(content, l),
{
    lemma_filter_members(lines_of(content), has_query(query));
    lemma_filter_members(lines_of(content), has_query_folded(query));
    lemma_lines_occur_in_text(content);
}

/// The case-insensitive search returns exactly the lines of the content, as they stand
/// there, whose lowercased form holds the lowercased query.
pub proof fn lemma_search_folded_exact(query: Seq<char>, content: Seq<char>)
    ensures
        forall|l: Seq<char>| #[trigger]
            matching_lines_folded(query, content).contains(l) <==> lines_of(content).contains(l)
                && contains_seq(lower_of(l), lower_of(query)),
{
    lemma_filter_members(lines_of(content), has_query_folded(query));
}

/// The empty query matches every line of the content.
pub proof fn lemma_empty_query_matches_all(content: Seq<char>)
    ensures
        matching_lines(Seq::empty(), content) == lines_of(content),
{
    let all = lines_of(content);
    assert forall|k: int| 0 <= k < all.len() implies #[trigger] has_query(Seq::empty())(
        all[k],
    ) by {
        let none = Seq::<char>::empty();
        assert(all[k].subrange(0, 0 + none.len() as int) =~= none);
    }
    lemma_filter_keeps_all(all, has_query(Seq::empty()));
}

/// Both searches return lines in the order in which they stand in the content.
pub proof fn lemma_search_keeps_order(query: Seq<char>, content: Seq<char>)
    ensures
        is_subsequence(matching_lines(query, content), lines_of(content)),
        is_subsequence(matching_lines_folded(query, content), lines_of(content)),
{
    lemma_filter_subsequence(lines_of(content), has_query(query));
    lemma_filter_subsequence(lines_of(content), has_query_folded(query));
}

/// An item is kept by a filter exactly when it is in the sequence and satisfies the predicate.
proof fn lemma_filter_members<A>(s: Seq<A>, p: spec_fn(A) -> bool)
    ensures
        forall|x: A| #[trigger] s.filter(p).contains(x) <==> s.contains(x) && p(x),
{
    assert forall|x: A| #[trigger] s.filter(p).contains(x) <==> s.contains(x) && p(x) by {
        if s.filter(p).contains(x) {
            s.lemma_filter_contains_rev(p, x);
            let j = choose|j: int| 0 <= j < s.filter(p).len() && s.filter(p)[j] == x;
            s.lemma_filter_pred(p, j);
        }
        if s.contains(x) && p(x) {
            let k = choose|k: int| 0 <= k < s.len() && s[k] == x;
            s.lemma_filter_contains(p, k);
        }
    }
}

/// A filter keeps the order of the items it keeps.
proof fn lemma_filter_subsequence<A>(s: Seq<A>, p: spec_fn(A) -> bool)
    ensures
        is_subsequence(s.filter(p), s),
    decreases s.len(),
{
    reveal(Seq::filter);
    if s.len() == 0 {
        let idx = Seq::<int>::empty();
        assert(idx.len() == s.filter(p).len());
    } else {
        let rest = s.drop_last();
        lemma_filter_subsequence(rest, p);
        let sub = rest.filter(p);
        let idx0 = choose|idx: Seq<int>|
            #![trigger idx.len()]
            idx.len() == sub.len() && (forall|k: int|
                0 <= k < sub.len() ==> 0 <= #[trigger] idx[k] < rest.len() && sub[k] == rest[idx[k]])
                && (forall|k: int, m: int|
                0 <= k < m < sub.len() ==> #[trigger] idx[k] < #[trigger] idx[m]);
        if p(s.last()) {
            let idx = idx0.push(s.len() - 1);
            let f = s.filter(p);
            assert(f == sub.push(s.last()));
            assert forall|k: int| 0 <= k < f.len() implies 0 <= #[trigger] idx[k] < s.len()
                && f[k] == s[idx[k]] by {
                if k < sub.len() {
                    assert(idx[k] == idx0[k]);
                }
            }
            assert forall|k: int, m: int| 0 <= k < m < f.len() implies #[trigger] idx[k]
                < #[trigger] idx[m] by {
                if m < sub.len() {
                    assert(idx[k] == idx0[k] && idx[m] == idx0[m]);
                } else {
                    assert(idx[k] == idx0[k]);
                }
            }
            assert(idx.len() == f.len());
        } else {
            assert(idx0.len() == s.filter(p).len());
        }
    }
}

/// A filter whose predicate holds of every item keeps the sequence as it is.
proof fn lemma_filter_keeps_all<A>(s: Seq<A>, p: spec_fn(A) -> bool)
    requires
        forall|i: int| 0 <= i < s.len() ==> #[trigger] p(s[i]),
    ensures
        s.filter(p) == s,
    decreases s.len(),
{
    reveal(Seq::filter);
    if s.len() > 0 {
        lemma_filter_keeps_all(s.drop_last(), p);
        assert(s.drop_last().push(s.last()) =~= s);
    }
}

/// An occurrence survives lowering the ASCII capitals of both texts.
proof fn lemma_lowered_occurrence(l: Seq<char>, q: Seq<char>, ll: Seq<char>, lq: Seq<char>)
    requires
        contains_seq(l, q),
        ascii_lowered(l, ll),
        ascii_lowered(q, lq),
    ensures
        contains_seq(ll, lq),
{
    let i = choose|i: int| 0 <= i <= l.len() - q.len() && #[trigger] l.subrange(i, i + q.len()) == q;
    assert forall|j: int| 0 <= j < q.len() implies ll[i + j] == #[trigger] lq[j] by {
        assert(l.subrange(i, i + q.len())[j] == q[j]);
        assert(l[i + j] == q[j]);
    }
    assert(ll.subrange(i, i + q.len()) =~= lq);
}

/// The lines of an ASCII text are ASCII.
proof fn lemma_lines_ascii(s: Seq<char>)
    requires
        is_ascii_chars(s),
    ensures
        forall|k: int| 0 <= k < lines_of(s).len() ==> is_ascii_chars(#[trigger] lines_of(s)[k]),
    decreases s.len(),
{
    if s.len() > 0 {
        let n = line_len(s);
        if n < s.len() {
            let rest = s.skip(n + 1 as int);
            assert(is_ascii_chars(rest)) by {
                assert forall|j: int| 0 <= j < rest.len() implies '\0' <= #[trigger] rest[j]
                    <= '\u{7f}' by {
                    assert(rest[j] == s[n + 1 + j]);
                }
            }
            lemma_lines_ascii(rest);
            let first = strip_cr(s.take(n as int));
            assert(is_ascii_chars(first)) by {
                assert forall|j: int| 0 <= j < first.len() implies '\0' <= #[trigger] first[j]
                    <= '\u{7f}' by {
                    assert(first[j] == s[j]);
                }
            }
            assert forall|k: int| 0 <= k < lines_of(s).len() implies is_ascii_chars(
                #[trigger] lines_of(s)[k],
            ) by {
                if k > 0 {
                    assert(lines_of(s)[k] == lines_of(rest)[k - 1]);
                }
            }
        }
    }
}

} // verus!
