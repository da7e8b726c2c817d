//! Search queries: the full-text query built from the user's words, and the
//! key under which a library is stored and looked up.
use vstd::prelude::*;

use crate::text::{append_all, chars_of, is_whitespace, is_ws, lowercase_of, slice_chars, string_from_chars, to_lowercase, vviews};

verus! {

broadcast use vstd::string::group_string_axioms;

/// Whether `c` has a meaning of its own in a full-text query.
pub open spec fn is_fts_special(c: char) -> bool {
    c == '"' || c == '\'' || c == '(' || c == ')' || c == '*' || c == '^'
}

/// `s` with the full-text query's special chars replaced by spaces.
pub open spec fn blank_specials(s: Seq<char>) -> Seq<char> {
    s.map_values(|c: char| if is_fts_special(c) { ' ' } else { c })
}

/// The words of `s[start..]` where the current word began at `start` and
/// `s[start..i]` holds no whitespace (what `str::split_whitespace` yields).
pub open spec fn words_from(s: Seq<char>, start: int, i: int) -> Seq<Seq<char>>
    decreases s.len() - i,
{
    if i >= s.len() {
        if 0 <= start < s.len() {
            seq![s.subrange(start, s.len() as int)]
        } else {
            Seq::empty()
        }
    } else if is_ws(s[i]) {
        (if start < i {
            seq![s.subrange(start, i)]
        } else {
            Seq::empty()
        }) + words_from(s, i + 1, i + 1)
    } else {
        words_from(s, start, i + 1)
    }
}

/// The words of `s`.
pub open spec fn words_of(s: Seq<char>) -> Seq<Seq<char>> {
    words_from(s, 0, 0)
}

/// The strings of `ws` joined with `sep`.
pub open spec fn join_with(ws: Seq<Seq<char>>, sep: Seq<char>) -> Seq<char>
    decreases ws.len(),
{
    if ws.len() == 0 {
        Seq::empty()
    } else if ws.len() == 1 {
        ws[0]
    } else {
        join_with(ws.drop_last(), sep) + sep + ws.last()
    }
}

/// The full-text query for the user's query `q`: its words (special chars
/// taken as spaces) joined with `OR`, or `*` where it has none.
pub open spec fn fts_query(q: Seq<char>) -> Seq<char> {
    let ws = words_of(blank_specials(q));
    if ws.len() == 0 {
        "*"@
    } else {
        join_with(ws, " OR "@)
    }
}

/// The words of `v` (`str::split_whitespace`).
fn split_words(v: &Vec<char>) -> (r: Vec<Vec<char>>)
    ensures
        vviews(r@) == words_of(v@),
{
    let mut r: Vec<Vec<char>> = Vec::new();
    let mut start: usize = 0;
    let mut i: usize = 0;
    while i < v.len()
        invariant
            start <= i <= v.len(),
            vviews(r@) + words_from(v@, start as int, i as int) == words_of(v@),
        decreases v.len() - i,
    {
        if is_whitespace(v[i]) {
            if start < i {
                let w = slice_chars(v, start, i);
                let ghost old_r = vviews(r@);
                r.push(w);
                assert(vviews(r@) =~= old_r.push(w@));
                assert(vviews(r@) + words_from(v@, i + 1, i + 1) =~= old_r + words_from(
                    v@,
                    start as int,
                    i as int,
                ));
            } else {
                assert(vviews(r@) + words_from(v@, i + 1, i + 1) =~= vviews(r@) + words_from(
                    v@,
                    start as int,
                    i as int,
                ));
            }
            start = i + 1;
        }
        i = i + 1;
    }
    if start < v.len() {
        let w = slice_chars(v, start, v.len());
        let ghost old_r = vviews(r@);
        r.push(w);
        assert(vviews(r@) =~= old_r.push(w@));
        assert(vviews(r@) =~= old_r + words_from(v@, start as int, i as int));
    } else {
        assert(vviews(r@) =~= vviews(r@) + words_from(v@, start as int, i as int));
    }
    r
}

/// Escape special characters for a full-text query: special chars become
/// spaces, and the words are joined with `OR` (`*` where there are none).
pub fn escape_fts_query(query: &str) -> (r: String)
    ensures
        r@ == fts_query(query@),
{
    let cs = chars_of(query);
    let mut blanked: Vec<char> = Vec::new();
    let mut i: usize = 0;
    while i < cs.len()
        invariant
            i <= cs.len(),
            blanked@ == blank_specials(cs@).take(i as int),
        decreases cs.len() - i,
    {
        let c = cs[i];
        if c == '"' || c == '\'' || c == '(' || c == ')' || c == '*' || c == '^' {
            blanked.push(' ');
        } else {
            blanked.push(c);
        }
        assert(blanked@ =~= blank_specials(cs@).take(i + 1));
        i = i + 1;
    }
    assert(blank_specials(cs@).take(cs.len() as int) =~= blank_specials(cs@));
    let words = split_words(&blanked);
    if words.len() == 0 {
        return "*".to_owned();
    }
    let ghost wv = vviews(words@);
    let sep = chars_of(" OR ");
    let mut out: Vec<char> = Vec::new();
    let mut k: usize = 0;
    while k < words.len()
        invariant
            k <= words.len(),
            wv == vviews(words@),
            sep@ == " OR "@,
            out@ == join_with(wv.take(k as int), sep@),
        decreases words.len() - k,
    {
        assert(wv.take(k + 1).drop_last() =~= wv.take(k as int));
        assert(wv.take(k + 1).last() == words@[k as int]@);
        if k > 0 {
            append_all(&mut out, &sep);
        }
        append_all(&mut out, &words[k]);
        proof {
            if k == 0 {
                assert(out@ =~= wv.take(1)[0]);
            } else {
                assert(out@ =~= join_with(wv.take(k as int), sep@) + sep@ + words@[k as int]@);
            }
        }
        k = k + 1;
    }
    assert(wv.take(words.len() as int) =~= wv);
    string_from_chars(&out)
}

/// The key under which a library is stored and found: its name in lower case.
pub fn library_key(name: &str) -> (r: String)
    ensures
        r@ == lowercase_of(name@),
{
    to_lowercase(name)
}

proof fn lemma_words_nonempty(s: Seq<char>, start: int, i: int)
    requires
        0 <= start <= i <= s.len(),
    ensures
        forall|k: int| 0 <= k < words_from(s, start, i).len() ==> #[trigger] words_from(s, start, i)[k].len() > 0,
    decreases s.len() - i,
{
    if i < s.len() {
        if is_ws(s[i]) {
            lemma_words_nonempty(s, i + 1, i + 1);
            let head: Seq<Seq<char>> = if start < i {
                seq![s.subrange(start, i)]
            } else {
                Seq::empty()
            };
            let rest = words_from(s, i + 1, i + 1);
            let all = words_from(s, start, i);
            assert(all == head + rest);
            assert forall|k: int| 0 <= k < all.len() implies #[trigger] all[k].len() > 0 by {
                if k < head.len() {
                    assert(all[k] == head[k]);
                    assert(head[k] == s.subrange(start, i));
                } else {
                    assert(all[k] == rest[k - head.len()]);
                }
            }
        } else {
            lemma_words_nonempty(s, start, i + 1);
            assert(words_from(s, start, i) == words_from(s, start, i + 1));
        }
    } else if start < s.len() {
        let all = words_from(s, start, i);
        assert(all == seq![s.subrange(start, s.len() as int)]);
        assert(all[0].len() == s.len() - start);
    }
}

proof fn lemma_join_len(ws: Seq<Seq<char>>, sep: Seq<char>)
    requires
        ws.len() > 0,
    ensures
        join_with(ws, sep).len() >= ws.last().len(),
{
}

/// The full-text query is never empty: a query with no words searches for `*`.
pub proof fn law_fts_query_not_empty(q: Seq<char>)
    ensures
        fts_query(q).len() > 0,
        words_of(blank_specials(q)).len() == 0 ==> fts_query(q) == "*"@,
{
    let ws = words_of(blank_specials(q));
    if ws.len() == 0 {
        reveal_strlit("*");
    } else {
        lemma_words_nonempty(blank_specials(q), 0, 0);
        lemma_join_len(ws, " OR "@);
        assert(ws.last() == ws[ws.len() - 1]);
    }
}

} // verus!
