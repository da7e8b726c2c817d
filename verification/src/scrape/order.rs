//! The order in which crawl results are reported: by depth, then by URL.
use vstd::prelude::*;

use std::cmp::Ordering;

use crate::scrape::crawler::CrawlResult;
use crate::text::chars_of;

verus! {

/// The lexicographic comparison of two texts by code point: -1, 0 or 1 as `a`
/// comes before, equals or comes after `b` (a proper prefix comes first). This
/// is the order of `str`, whose bytes in UTF-8 compare as the code points do.
pub open spec fn text_rank(a: Seq<char>, b: Seq<char>) -> int
    decreases a.len(),
{
    if a.len() == 0 {
        if b.len() == 0 {
            0
        } else {
            -1
        }
    } else if b.len() == 0 {
        1
    } else if (a[0] as u32) < (b[0] as u32) {
        -1
    } else if (a[0] as u32) > (b[0] as u32) {
        1
    } else {
        text_rank(a.drop_first(), b.drop_first())
    }
}

/// The comparison of two texts by code point.
fn lex_compare(a: &Vec<char>, b: &Vec<char>) -> (r: i8)
    ensures
        r as int == text_rank(a@, b@),
{
    let mut i: usize = 0;
    assert(a@.skip(0) =~= a@);
    assert(b@.skip(0) =~= b@);
    while i < a.len() && i < b.len()
        invariant
            i <= a.len(),
            i <= b.len(),
            text_rank(a@, b@) == text_rank(a@.skip(i as int), b@.skip(i as int)),
        decreases a.len() - i,
    {
        let x = a[i] as u32;
        let y = b[i] as u32;
        assert(a@.skip(i as int)[0] == a@[i as int]);
        assert(b@.skip(i as int)[0] == b@[i as int]);
        if x < y {
            return -1;
        }
        if x > y {
            return 1;
        }
        assert(a@.skip(i as int).drop_first() =~= a@.skip(i + 1));
        assert(b@.skip(i as int).drop_first() =~= b@.skip(i + 1));
        i = i + 1;
    }
    if i < b.len() {
        -1
    } else if i < a.len() {
        1
    } else {
        0
    }
}

/// The order of two crawl results: the shallower first, then by URL.
pub open spec fn result_order(a_depth: usize, a_url: Seq<char>, b_depth: usize, b_url: Seq<char>) -> Ordering {
    if a_depth < b_depth {
        Ordering::Less
    } else if a_depth > b_depth {
        Ordering::Greater
    } else if text_rank(a_url, b_url) < 0 {
        Ordering::Less
    } else if text_rank(a_url, b_url) > 0 {
        Ordering::Greater
    } else {
        Ordering::Equal
    }
}

/// Compare two crawl results: by depth, then by URL.
pub fn compare_results(a: &CrawlResult, b: &CrawlResult) -> (r: Ordering)
    ensures
        r == result_order(a.depth, a.url@, b.depth, b.url@),
{
    if a.depth < b.depth {
        return Ordering::Less;
    }
    if a.depth > b.depth {
        return Ordering::Greater;
    }
    let ac = chars_of(a.url.as_str());
    let bc = chars_of(b.url.as_str());
    let c = lex_compare(&ac, &bc);
    if c < 0 {
        Ordering::Less
    } else if c > 0 {
        Ordering::Greater
    } else {
        Ordering::Equal
    }
}

/// Whether result `a` comes after result `b`: it is deeper, or as deep with a
/// URL that sorts after.
pub open spec fn comes_after(a: CrawlResult, b: CrawlResult) -> bool {
    result_order(a.depth, a.url@, b.depth, b.url@) == Ordering::Greater
}

/// Whether `a` comes after `b`.
fn is_after(a: &CrawlResult, b: &CrawlResult) -> (r: bool)
    ensures
        r == comes_after(*a, *b),
{
    match compare_results(a, b) {
        Ordering::Greater => true,
        _ => false,
    }
}

proof fn lemma_text_rank_antisym(a: Seq<char>, b: Seq<char>)
    ensures
        text_rank(a, b) == -text_rank(b, a),
    decreases a.len(),
{
    if a.len() > 0 && b.len() > 0 {
        lemma_text_rank_antisym(a.drop_first(), b.drop_first());
    }
}

proof fn lemma_after_antisym(a: CrawlResult, b: CrawlResult)
    requires
        comes_after(a, b),
    ensures
        !comes_after(b, a),
{
    lemma_text_rank_antisym(a.url@, b.url@);
}

/// Results `s[i]` and `s[i + 1]` are in crawl order.
pub open spec fn ordered_at(s: Seq<CrawlResult>, i: int) -> bool {
    !comes_after(s[i], s[i + 1])
}

/// Every result comes no later than the one after it: by depth, then by URL.
pub open spec fn in_crawl_order(s: Seq<CrawlResult>) -> bool {
    forall|i: int| 0 <= i && i + 1 < s.len() ==> #[trigger] ordered_at(s, i)
}

/// Whether two results have the same depth and URL.
pub open spec fn same_key(a: CrawlResult, b: CrawlResult) -> bool {
    a.depth == b.depth && a.url@ == b.url@
}

/// The results of `s` with the same depth and URL as `k`, in their order in `s`.
pub open spec fn with_key_of(s: Seq<CrawlResult>, k: CrawlResult) -> Seq<CrawlResult>
    decreases s.len(),
{
    if s.len() == 0 {
        Seq::empty()
    } else if same_key(s.last(), k) {
        with_key_of(s.drop_last(), k).push(s.last())
    } else {
        with_key_of(s.drop_last(), k)
    }
}

proof fn lemma_text_rank_refl(a: Seq<char>)
    ensures
        text_rank(a, a) == 0,
    decreases a.len(),
{
    if a.len() > 0 {
        lemma_text_rank_refl(a.drop_first());
    }
}

/// A result that comes after another has another depth or URL.
proof fn lemma_after_other_key(a: CrawlResult, b: CrawlResult)
    requires
        comes_after(a, b),
    ensures
        !same_key(a, b),
{
    lemma_text_rank_refl(a.url@);
}

proof fn lemma_with_key_add(a: Seq<CrawlResult>, b: Seq<CrawlResult>, k: CrawlResult)
    ensures
        with_key_of(a + b, k) == with_key_of(a, k) + with_key_of(b, k),
    decreases b.len(),
{
    if b.len() == 0 {
        assert(a + b =~= a);
        assert(with_key_of(a, k) + with_key_of(b, k) =~= with_key_of(a, k));
    } else {
        assert((a + b).drop_last() =~= a + b.drop_last());
        lemma_with_key_add(a, b.drop_last(), k);
        assert((a + b).last() == b.last());
        if same_key(b.last(), k) {
            assert(with_key_of(a, k) + with_key_of(b.drop_last(), k).push(b.last()) =~= (with_key_of(a, k)
                + with_key_of(b.drop_last(), k)).push(b.last()));
        }
    }
}

proof fn lemma_with_key_none(s: Seq<CrawlResult>, k: CrawlResult)
    requires
        forall|i: int| 0 <= i < s.len() ==> !same_key(#[trigger] s[i], k),
    ensures
        with_key_of(s, k) == Seq::<CrawlResult>::empty(),
    decreases s.len(),
{
    if s.len() > 0 {
        lemma_with_key_none(s.drop_last(), k);
        assert(!same_key(s[s.len() - 1], k));
    }
}

/// Inserting `x` before results that all come after it appends it to the results
/// with its key and leaves the others alone.
proof fn lemma_with_key_insert(s: Seq<CrawlResult>, j: int, x: CrawlResult, k: CrawlResult)
    requires
        0 <= j <= s.len(),
        forall|i: int| j <= i < s.len() ==> comes_after(#[trigger] s[i], x),
    ensures
        with_key_of(s.insert(j, x), k) == if same_key(x, k) {
            with_key_of(s, k).push(x)
        } else {
            with_key_of(s, k)
        },
{
    let a = s.take(j);
    let b = s.skip(j);
    assert(s =~= a + b);
    assert(s.insert(j, x) =~= a + seq![x] + b);
    lemma_with_key_add(a + seq![x], b, k);
    lemma_with_key_add(a, seq![x], k);
    lemma_with_key_add(a, b, k);
    assert(seq![x].drop_last() =~= Seq::<CrawlResult>::empty());
    assert(seq![x].last() == x);
    assert(with_key_of(Seq::<CrawlResult>::empty(), k) == Seq::<CrawlResult>::empty());
    assert(with_key_of(seq![x], k) == if same_key(x, k) {
        with_key_of(Seq::<CrawlResult>::empty(), k).push(x)
    } else {
        with_key_of(Seq::<CrawlResult>::empty(), k)
    });
    if same_key(x, k) {
        assert forall|i: int| 0 <= i < b.len() implies !same_key(#[trigger] b[i], k) by {
            assert(b[i] == s[j + i]);
            lemma_after_other_key(s[j + i], x);
        }
        lemma_with_key_none(b, k);
        assert(with_key_of(seq![x], k) =~= seq![x]);
        assert(with_key_of(a, k) + seq![x] + Seq::<CrawlResult>::empty() =~= (with_key_of(a, k)
            + Seq::<CrawlResult>::empty()).push(x));
    } else {
        assert(with_key_of(seq![x], k) =~= Seq::<CrawlResult>::empty());
        assert(with_key_of(a, k) + Seq::<CrawlResult>::empty() =~= with_key_of(a, k));
    }
}

/// The crawl results sorted by depth, then by URL; results with the same depth
/// and URL keep their order.
pub fn sort_results(v: Vec<CrawlResult>) -> (r: Vec<CrawlResult>)
    ensures
        in_crawl_order(r@),
        r@.to_multiset() == v@.to_multiset(),
        forall|k: CrawlResult| #[trigger] with_key_of(r@, k) == with_key_of(v@, k),
{
    broadcast use vstd::seq_lib::group_to_multiset_ensures;

    let ghost orig = v@;
    let mut input = v;
    let mut out: Vec<CrawlResult> = Vec::new();
    let ghost mut done: Seq<CrawlResult> = Seq::empty();
    assert(orig =~= done + input@);
    assert(out@.to_multiset() =~= vstd::multiset::Multiset::empty());
    assert(out@.to_multiset().add(input@.to_multiset()) =~= orig.to_multiset());
    while input.len() > 0
        invariant
            out@.to_multiset().add(input@.to_multiset()) == orig.to_multiset(),
            in_crawl_order(out@),
            orig == done + input@,
            forall|k: CrawlResult| #[trigger] with_key_of(out@, k) == with_key_of(done, k),
        decreases input.len(),
    {
        let ghost before_in = input@;
        let x = input.remove(0);
        proof {
            vstd::seq_lib::to_multiset_remove(before_in, 0);
        }
        assert(input@.to_multiset() == before_in.to_multiset().remove(x));
        let mut j: usize = out.len();
        while j > 0 && is_after(&out[j - 1], &x)
            invariant
                j <= out.len(),
                forall|k: int| j <= k < out.len() ==> comes_after(#[trigger] out@[k], x),
            decreases j,
        {
            j = j - 1;
        }
        let ghost before_out = out@;
        out.insert(j, x);
        proof {
            let ghost old_done = done;
            done = done.push(x);
            assert(before_in =~= seq![x] + input@);
            assert(orig =~= done + input@);
            assert(out@ == before_out.insert(j as int, x));
            assert forall|k: CrawlResult| #[trigger] with_key_of(out@, k) == with_key_of(done, k) by {
                lemma_with_key_insert(before_out, j as int, x, k);
                assert(with_key_of(before_out, k) == with_key_of(old_done, k));
                assert(done.drop_last() =~= old_done);
            }
            assert(out@.remove(j as int) =~= before_out);
            assert(out@[j as int] == x);
            vstd::seq_lib::to_multiset_remove(out@, j as int);
            assert(before_out.to_multiset() == out@.to_multiset().remove(x));
            assert(out@.to_multiset().count(x) > 0) by {
                assert(out@.contains(x));
                out@.to_multiset_ensures();
            }
            assert(out@.to_multiset() =~= before_out.to_multiset().insert(x));
            assert(before_in.to_multiset().count(x) > 0) by {
                assert(before_in[0] == x);
                assert(before_in.contains(x));
                before_in.to_multiset_ensures();
            }
            assert(out@.to_multiset().add(input@.to_multiset()) =~= orig.to_multiset());
            assert forall|i: int| 0 <= i && i + 1 < out@.len() implies #[trigger] ordered_at(out@, i) by {
                if i + 1 < j {
                    assert(ordered_at(before_out, i));
                } else if i + 1 == j {
                } else if i == j {
                    lemma_after_antisym(before_out[j as int], x);
                } else {
                    assert(ordered_at(before_out, i - 1));
                }
            }
        }
    }
    out
}

} // verus!
