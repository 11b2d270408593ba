use vstd::prelude::*;
use vstd::utf8::is_ascii_chars;

verus! {

/// `needle` occurs in `hay` as a contiguous run of characters.
pub open spec fn contains_seq(hay: Seq<char>, needle: Seq<char>) -> bool {
    exists|i: int|
        0 <= i <= hay.len() - needle.len() && #[trigger] hay.subrange(i, i + needle.len())
            == needle
}

/// Number of characters before the first `'\n'` of `s` (all of them if there is none).
pub open spec fn line_len(s: Seq<char>) -> nat
    decreases s.len(),
{
    if s.len() == 0 || s[0] == '\n' {
        0
    } else {
        1 + line_len(s.drop_first())
    }
}

/// Drops one trailing `'\r'`, if there is one.
pub open spec fn strip_cr(l: Seq<char>) -> Seq<char> {
    if l.len() > 0 && l.last() == '\r' {
        l.drop_last()
    } else {
        l
    }
}

/// The lines of a text: it is cut at each `'\n'`, a `'\r'` just before a `'\n'` goes with
/// the terminator, and a final terminator opens no further line.
pub open spec fn lines_of(s: Seq<char>) -> Seq<Seq<char>>
    decreases s.len(),
{
    if s.len() == 0 {
        seq![]
    } else {
        let n = line_len(s);
        if n < s.len() {
            seq![strip_cr(s.take(n as int))] + lines_of(s.skip(n + 1 as int))
        } else {
            seq![s]
        }
    }
}

/// Each line of a text occurs in it as a contiguous run of characters.
pub proof fn lemma_lines_occur_in_text(s: Seq<char>)
    ensures
        forall|k: int| 0 <= k < lines_of(s).len() ==> contains_seq(s, #[trigger] lines_of(s)[k]),
    decreases s.len(),
{
    if s.len() > 0 {
        let n = line_len(s);
        if n < s.len() {
            let rest = s.skip(n + 1 as int);
            lemma_lines_occur_in_text(rest);
            assert forall|k: int| 0 <= k < lines_of(s).len() implies contains_seq(
                s,
                #[trigger] lines_of(s)[k],
            ) by {
                let l = lines_of(s)[k];
                if k == 0 {
                    assert(s.subrange(0, 0 + l.len() as int) =~= l);
                } else {
                    assert(l == lines_of(rest)[k - 1]);
                    let i = choose|i: int|
                        0 <= i <= rest.len() - l.len() && #[trigger] rest.subrange(i, i + l.len())
                            == l;
                    assert(s.subrange(n + 1 + i, n + 1 + i + l.len()) =~= rest.subrange(
                        i,
                        i + l.len(),
                    ));
                }
            }
        } else {
            assert(s.subrange(0, 0 + s.len() as int) =~= s);
        }
    }
}

/// The text that `str::to_lowercase` makes of `s`.
pub uninterp spec fn lower_of(s: Seq<char>) -> Seq<char>;

/// `r` is `s` with each ASCII capital letter replaced by its small letter.
pub open spec fn ascii_lowered(s: Seq<char>, r: Seq<char>) -> bool {
    &&& r.len() == s.len()
    &&& forall|i: int|
        0 <= i < s.len() ==> if 'A' <= #[trigger] s[i] <= 'Z' {
            r[i] as int == s[i] as int + 32
        } else {
            r[i] == s[i]
        }
}

/// Views of a list of string slices.
pub open spec fn views(v: Seq<&str>) -> Seq<Seq<char>> {
    v.map_values(|l: &str| l@)
}

/// Relies on `str::lines`: the lines of `s` as slices of it, in order, without terminators.
#[verifier::external_body]
pub(crate) fn split_lines<'a>(s: &'a str) -> (r: Vec<&'a str>)
    ensures
        views(r@) == lines_of(s@),
{
    s.lines().collect()
}

/// Relies on `str::to_lowercase`: the result depends on the characters alone, the empty
/// string stays empty, and on ASCII text only the capital letters change.
#[verifier::external_body]
pub(crate) fn lowercase(s: &str) -> (r: String)
    ensures
        r@ == lower_of(s@),
        s@.len() == 0 ==> r@.len() == 0,
        is_ascii_chars(s@) ==> ascii_lowered(s@, r@),
{
    s.to_lowercase()
}

/// The characters of `s`, in order.
fn chars_of(s: &str) -> (r: Vec<char>)
    ensures
        r@ == s@,
{
    let mut r: Vec<char> = Vec::new();
    for c in it: s.chars()
        invariant
            r@ == it.seq().take(it.index() as int),
    {
        r.push(c);
    }
    r
}

/// Whether `needle` stands in `hay` from position `start` on.
fn matches_at(hay: &Vec<char>, needle: &Vec<char>, start: usize) -> (r: bool)
    requires
        start + needle@.len() <= hay@.len(),
    ensures
        r == (hay@.subrange(start as int, start + needle@.len()) == needle@),
{
    let hay_len: usize = hay.len();
    let mut j: usize = 0;
    while j < needle.len()
        invariant
            j <= needle@.len(),
            hay_len == hay@.len(),
            start + needle@.len() <= hay@.len(),
            forall|k: int| 0 <= k < j ==> hay@[start + k] == needle@[k],
        decreases needle@.len() - j,
    {
        if hay[start + j] != needle[j] {
            assert(hay@.subrange(start as int, start + needle@.len())[j as int] != needle@[j as int]);
            return false;
        }
        j += 1;
    }
    assert(hay@.subrange(start as int, start + needle@.len()) =~= needle@);
    true
}

/// Whether `needle` occurs in `hay`.
fn contains_chars(hay: &Vec<char>, needle: &Vec<char>) -> (r: bool)
    ensures
        r == contains_seq(hay@, needle@),
{
    if needle.len() > hay.len() {
        return false;
    }
    let last: usize = hay.len() - needle.len();
    let mut i: usize = 0;
    loop
        invariant
            i <= last,
            last == hay@.len() - needle@.len(),
            forall|k: int| 0 <= k < i ==> #[trigger] hay@.subrange(k, k + needle@.len()) != needle@,
        decreases last - i,
    {
        if matches_at(hay, needle, i) {
            return true;
        }
        if i == last {
            return false;
        }
        i += 1;
    }
}

/// Whether `query` occurs in `line`; the empty query occurs in every line.
pub fn line_contains(line: &str, query: &str) -> (r: bool)
    ensures
        r == contains_seq(line@, query@),
{
    let hay = chars_of(line);
    let needle = chars_of(query);
    contains_chars(&hay, &needle)
}

} // verus!
