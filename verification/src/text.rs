//! Character-level text utilities shared by the splitters and the scraper.
//!
//! Text is handled as a sequence of `char`s; byte positions (as used by the
//! UTF-8 encoding of a `str`) are obtained from the UTF-8 width of each char.
use vstd::prelude::*;

verus! {

broadcast use vstd::string::group_string_axioms;

/// Number of bytes of the UTF-8 encoding of `c`.
pub open spec fn utf8_width(c: char) -> nat {
    if (c as u32) < 0x80 {
        1
    } else if (c as u32) < 0x800 {
        2
    } else if (c as u32) < 0x10000 {
        3
    } else {
        4
    }
}

/// Number of bytes of the UTF-8 encoding of `s` (what `str::len` returns).
pub open spec fn byte_len(s: Seq<char>) -> nat
    decreases s.len(),
{
    if s.len() == 0 {
        0
    } else {
        byte_len(s.drop_last()) + utf8_width(s.last())
    }
}

/// Byte offset of the char at index `i` of `s`.
pub open spec fn byte_off(s: Seq<char>, i: int) -> nat {
    byte_len(s.take(i))
}

/// Unicode `White_Space` property, as used by `char::is_whitespace` and `str::trim`.
pub open spec fn is_ws(c: char) -> bool {
    let u = c as u32;
    (0x09 <= u && u <= 0x0D) || u == 0x20 || u == 0x85 || u == 0xA0 || u == 0x1680 || (0x2000
        <= u && u <= 0x200A) || u == 0x2028 || u == 0x2029 || u == 0x202F || u == 0x205F || u
        == 0x3000
}

/// Number of leading whitespace chars of `s`.
pub open spec fn lead_ws(s: Seq<char>) -> nat
    decreases s.len(),
{
    if s.len() > 0 && is_ws(s[0]) {
        1 + lead_ws(s.drop_first())
    } else {
        0
    }
}

/// Number of trailing whitespace chars of `s`.
pub open spec fn trail_ws(s: Seq<char>) -> nat
    decreases s.len(),
{
    if s.len() > 0 && is_ws(s.last()) {
        1 + trail_ws(s.drop_last())
    } else {
        0
    }
}

/// `s` without its leading and trailing whitespace (what `str::trim` gives).
pub open spec fn trim_seq(s: Seq<char>) -> Seq<char> {
    if lead_ws(s) >= s.len() {
        Seq::empty()
    } else {
        s.subrange(lead_ws(s) as int, s.len() - trail_ws(s))
    }
}

/// The lines of `s[start..]`, where the current line began at `start` and the
/// chars `s[start..i]` hold no line ending; lines are split as `str::lines`
/// does: at `"\n"` or `"\r\n"`, the ending excluded, a final ending optional.
pub open spec fn lines_acc(s: Seq<char>, start: int, i: int) -> Seq<Seq<char>>
    decreases s.len() - i,
{
    if i >= s.len() {
        if 0 <= start < s.len() {
            seq![s.subrange(start, s.len() as int)]
        } else {
            Seq::empty()
        }
    } else if s[i] == '\n' {
        let e = if i > start && s[i - 1] == '\r' {
            i - 1
        } else {
            i
        };
        seq![s.subrange(start, e)] + lines_acc(s, i + 1, i + 1)
    } else {
        lines_acc(s, start, i + 1)
    }
}

/// The views of a sequence of char vectors.
pub open spec fn vviews(r: Seq<Vec<char>>) -> Seq<Seq<char>> {
    r.map_values(|x: Vec<char>| x@)
}

/// The lines of `s`, as `str::lines` yields them.
pub open spec fn lines_of(s: Seq<char>) -> Seq<Seq<char>> {
    lines_acc(s, 0, 0)
}

/// Whether `pat` occurs in `s` at index `i`.
pub open spec fn occurs_at(s: Seq<char>, pat: Seq<char>, i: int) -> bool {
    0 <= i && i + pat.len() <= s.len() && s.subrange(i, i + pat.len()) == pat
}

/// Whether `pat` occurs anywhere in `s` (what `str::contains` answers).
pub open spec fn contains_seq(s: Seq<char>, pat: Seq<char>) -> bool {
    exists|i: int| occurs_at(s, pat, i)
}

pub proof fn lemma_byte_len_take_step(s: Seq<char>, i: int)
    requires
        0 <= i < s.len(),
    ensures
        byte_len(s.take(i + 1)) == byte_len(s.take(i)) + utf8_width(s[i]),
{
    assert(s.take(i + 1).drop_last() =~= s.take(i));
}

pub proof fn lemma_byte_len_add(a: Seq<char>, b: Seq<char>)
    ensures
        byte_len(a + b) == byte_len(a) + byte_len(b),
    decreases b.len(),
{
    if b.len() == 0 {
        assert(a + b =~= a);
    } else {
        assert((a + b).drop_last() =~= a + b.drop_last());
        lemma_byte_len_add(a, b.drop_last());
    }
}

/// Byte offsets never decrease, and each char adds at least one byte.
pub proof fn lemma_byte_off_mono(s: Seq<char>, i: int, j: int)
    requires
        0 <= i <= j <= s.len(),
    ensures
        byte_off(s, i) + (j - i) <= byte_off(s, j),
        byte_off(s, j) <= byte_off(s, i) + 4 * (j - i),
    decreases j - i,
{
    if i < j {
        lemma_byte_off_mono(s, i, j - 1);
        lemma_byte_len_take_step(s, j - 1);
    }
}

pub proof fn lemma_byte_len_le_len(s: Seq<char>)
    ensures
        s.len() <= byte_len(s),
        byte_len(s) <= 4 * s.len(),
{
    lemma_byte_off_mono(s, 0, s.len() as int);
    assert(s.take(s.len() as int) =~= s);
    assert(s.take(0) =~= Seq::<char>::empty());
}

/// Collects the characters of a string slice.
pub fn chars_of(s: &str) -> (v: Vec<char>)
    ensures
        v@ == s@,
{
    let mut v: Vec<char> = Vec::new();
    for c in it: s.chars()
        invariant
            v@ == it.seq().take(it.index() as int),
    {
        v.push(c);
    }
    v
}

/// Number of bytes of the UTF-8 encoding of `c`.
pub fn char_width(c: char) -> (w: usize)
    ensures
        w == utf8_width(c),
        1 <= w <= 4,
{
    let u = c as u32;
    if u < 0x80 {
        1
    } else if u < 0x800 {
        2
    } else if u < 0x10000 {
        3
    } else {
        4
    }
}

/// Whether `c` is Unicode whitespace (`char::is_whitespace`).
pub fn is_whitespace(c: char) -> (b: bool)
    ensures
        b == is_ws(c),
{
    let u = c as u32;
    (0x09 <= u && u <= 0x0D) || u == 0x20 || u == 0x85 || u == 0xA0 || u == 0x1680 || (0x2000
        <= u && u <= 0x200A) || u == 0x2028 || u == 0x2029 || u == 0x202F || u == 0x205F || u
        == 0x3000
}

/// Byte offset of every char boundary of `v`: entry `i` is the offset of char `i`,
/// the last entry is the byte length of `v`.
pub fn byte_offsets(v: &Vec<char>) -> (offs: Vec<u128>)
    ensures
        offs.len() == v.len() + 1,
        forall|i: int| 0 <= i <= v.len() ==> offs[i] == byte_off(v@, i),
{
    let mut offs: Vec<u128> = Vec::new();
    offs.push(0);
    let mut acc: u128 = 0;
    let mut i: usize = 0;
    proof {
        assert(v@.take(0) =~= Seq::<char>::empty());
    }
    while i < v.len()
        invariant
            i <= v.len(),
            offs.len() == i + 1,
            acc == byte_off(v@, i as int),
            forall|k: int| 0 <= k <= i ==> offs[k] == byte_off(v@, k),
        decreases v.len() - i,
    {
        proof {
            lemma_byte_len_take_step(v@, i as int);
            lemma_byte_off_mono(v@, 0, i as int);
            assert(v@.take(0) =~= Seq::<char>::empty());
        }
        let w = char_width(v[i]);
        acc = acc + w as u128;
        i = i + 1;
        offs.push(acc);
    }
    offs
}

/// Byte length of the chars `v[lo..hi]`.
pub fn byte_count(v: &Vec<char>, lo: usize, hi: usize) -> (n: u128)
    requires
        lo <= hi <= v.len(),
    ensures
        n == byte_len(v@.subrange(lo as int, hi as int)),
{
    let mut n: u128 = 0;
    let mut i = lo;
    let ghost s = v@.subrange(lo as int, hi as int);
    proof {
        assert(s.take(0) =~= Seq::<char>::empty());
        assert(s.take(s.len() as int) =~= s);
    }
    while i < hi
        invariant
            lo <= i <= hi <= v.len(),
            s == v@.subrange(lo as int, hi as int),
            s.take(s.len() as int) == s,
            n == byte_off(s, i - lo),
        decreases hi - i,
    {
        proof {
            lemma_byte_len_take_step(s, i - lo);
            lemma_byte_off_mono(s, 0, i - lo);
            assert(s.take(0) =~= Seq::<char>::empty());
        }
        n = n + char_width(v[i]) as u128;
        i = i + 1;
    }
    n
}

/// The whitespace-trimmed part of `v[lo..hi]`, as a pair of indices into `v`.
pub fn trim_bounds(v: &Vec<char>, lo: usize, hi: usize) -> (r: (usize, usize))
    requires
        lo <= hi <= v.len(),
    ensures
        lo <= r.0 <= r.1 <= hi,
        v@.subrange(r.0 as int, r.1 as int) == trim_seq(v@.subrange(lo as int, hi as int)),
{
    let ghost s = v@.subrange(lo as int, hi as int);
    let mut a = lo;
    while a < hi && is_whitespace(v[a])
        invariant
            lo <= a <= hi <= v.len(),
            s == v@.subrange(lo as int, hi as int),
            lead_ws(s) == (a - lo) + lead_ws(v@.subrange(a as int, hi as int)),
        decreases hi - a,
    {
        assert(v@.subrange(a as int, hi as int).drop_first() =~= v@.subrange(
            a as int + 1,
            hi as int,
        ));
        a = a + 1;
    }
    if a == hi {
        assert(lead_ws(s) == s.len());
        return (hi, hi);
    }
    assert(lead_ws(s) == a - lo);
    let mut b = hi;
    assert(v@.subrange(a as int, b as int).last() == v@[b - 1]);
    while b > a && is_whitespace(v[b - 1])
        invariant
            lo <= a < hi,
            a <= b <= hi <= v.len(),
            s == v@.subrange(lo as int, hi as int),
            !is_ws(v@[a as int]),
            a < b,
            trail_ws(s) == (hi - b) + trail_ws(v@.subrange(lo as int, b as int)),
        decreases b - a,
    {
        assert(v@.subrange(lo as int, b as int).drop_last() =~= v@.subrange(
            lo as int,
            b as int - 1,
        ));
        b = b - 1;
    }
    assert(b > a);
    assert(v@.subrange(lo as int, b as int).last() == v@[b - 1]);
    assert(trail_ws(s) == hi - b);
    assert(v@.subrange(a as int, b as int) =~= s.subrange(lead_ws(s) as int, s.len() - trail_ws(s)));
    (a, b)
}

/// Appends `c` to `s` (`String::push`).
#[verifier::external_body]
fn string_push(s: &mut String, c: char)
    ensures
        final(s)@ == old(s)@.push(c),
{
    s.push(c);
}

/// A new `String` holding the chars `v[lo..hi]`.
pub fn string_from_range(v: &Vec<char>, lo: usize, hi: usize) -> (r: String)
    requires
        lo <= hi <= v.len(),
    ensures
        r@ == v@.subrange(lo as int, hi as int),
{
    let mut r = String::new();
    let mut i = lo;
    while i < hi
        invariant
            lo <= i <= hi <= v.len(),
            r@ == v@.subrange(lo as int, i as int),
        decreases hi - i,
    {
        string_push(&mut r, v[i]);
        assert(v@.subrange(lo as int, i + 1) =~= v@.subrange(lo as int, i as int).push(v@[i as int]));
        i = i + 1;
    }
    r
}

/// A new `String` holding all chars of `v`.
pub fn string_from_chars(v: &Vec<char>) -> (r: String)
    ensures
        r@ == v@,
{
    let r = string_from_range(v, 0, v.len());
    assert(v@.subrange(0, v.len() as int) =~= v@);
    r
}

/// The chars `v[lo..hi]` as a new vector.
pub fn slice_chars(v: &Vec<char>, lo: usize, hi: usize) -> (r: Vec<char>)
    requires
        lo <= hi <= v.len(),
    ensures
        r@ == v@.subrange(lo as int, hi as int),
{
    let mut r: Vec<char> = Vec::new();
    let mut i = lo;
    while i < hi
        invariant
            lo <= i <= hi <= v.len(),
            r@ == v@.subrange(lo as int, i as int),
        decreases hi - i,
    {
        r.push(v[i]);
        assert(v@.subrange(lo as int, i + 1) =~= v@.subrange(lo as int, i as int).push(v@[i as int]));
        i = i + 1;
    }
    r
}

/// Appends the chars `w[lo..hi]` to `v`.
pub fn append_range(v: &mut Vec<char>, w: &Vec<char>, lo: usize, hi: usize)
    requires
        lo <= hi <= w.len(),
    ensures
        final(v)@ == old(v)@ + w@.subrange(lo as int, hi as int),
{
    let mut i = lo;
    while i < hi
        invariant
            lo <= i <= hi <= w.len(),
            v@ == old(v)@ + w@.subrange(lo as int, i as int),
        decreases hi - i,
    {
        v.push(w[i]);
        assert(old(v)@ + w@.subrange(lo as int, i + 1) =~= old(v)@ + w@.subrange(lo as int, i as int) + seq![w@[i as int]]);
        i = i + 1;
    }
}

/// Appends all chars of `w` to `v`.
pub fn append_all(v: &mut Vec<char>, w: &Vec<char>)
    ensures
        final(v)@ == old(v)@ + w@,
{
    append_range(v, w, 0, w.len());
    assert(w@.subrange(0, w.len() as int) =~= w@);
}

/// The whitespace-trimmed copy of `v`.
pub fn trim_chars(v: &Vec<char>) -> (r: Vec<char>)
    ensures
        r@ == trim_seq(v@),
        r.len() <= v.len(),
{
    let (a, b) = trim_bounds(v, 0, v.len());
    assert(v@.subrange(0, v.len() as int) =~= v@);
    slice_chars(v, a, b)
}

/// The lines of `v`, as `str::lines` yields them.
pub fn split_lines(v: &Vec<char>) -> (r: Vec<Vec<char>>)
    ensures
        vviews(r@) == lines_of(v@),
{
    let mut r: Vec<Vec<char>> = Vec::new();
    let mut start: usize = 0;
    let mut i: usize = 0;
    while i < v.len()
        invariant
            start <= i <= v.len(),
            vviews(r@) + lines_acc(v@, start as int, i as int) == lines_of(v@),
        decreases v.len() - i,
    {
        if v[i] == '\n' {
            let e = if i > start && v[i - 1] == '\r' {
                i - 1
            } else {
                i
            };
            let line = slice_chars(v, start, e);
            let ghost old_r = vviews(r@);
            r.push(line);
            assert(vviews(r@) =~= old_r.push(line@));
            assert(vviews(r@) + lines_acc(v@, i + 1, i + 1) =~= old_r + lines_acc(
                v@,
                start as int,
                i as int,
            ));
            start = i + 1;
        }
        i = i + 1;
    }
    if start < v.len() {
        let line = slice_chars(v, start, v.len());
        let ghost old_r = vviews(r@);
        r.push(line);
        assert(vviews(r@) =~= old_r.push(line@));
        assert(vviews(r@) =~= old_r + lines_acc(v@, start as int, i as int));
    } else {
        assert(vviews(r@) =~= vviews(r@) + lines_acc(v@, start as int, i as int));
    }
    r
}

/// Whether `pat` occurs in `s` at index `i`.
pub fn matches_at(s: &Vec<char>, pat: &Vec<char>, i: usize) -> (b: bool)
    ensures
        b == occurs_at(s@, pat@, i as int),
{
    if pat.len() > s.len() || i > s.len() - pat.len() {
        return false;
    }
    let mut k: usize = 0;
    while k < pat.len()
        invariant
            k <= pat.len(),
            i + pat.len() <= s.len(),
            forall|m: int| 0 <= m < k ==> s@[i + m] == pat@[m],
        decreases pat.len() - k,
    {
        if s[i + k] != pat[k] {
            assert(s@.subrange(i as int, i + pat.len())[k as int] != pat@[k as int]);
            return false;
        }
        k = k + 1;
    }
    assert(s@.subrange(i as int, i + pat.len()) =~= pat@);
    true
}

/// Whether `pat` occurs in `s` (`str::contains`).
pub fn contains(s: &Vec<char>, pat: &Vec<char>) -> (b: bool)
    ensures
        b == contains_seq(s@, pat@),
{
    let mut i: usize = 0;
    while i < s.len()
        invariant
            i <= s.len(),
            forall|k: int| 0 <= k < i ==> !occurs_at(s@, pat@, k),
        decreases s.len() - i,
    {
        if matches_at(s, pat, i) {
            return true;
        }
        i = i + 1;
    }
    if matches_at(s, pat, i) {
        return true;
    }
    assert forall|k: int| !occurs_at(s@, pat@, k) by {
        if 0 <= k <= i {
        }
    }
    false
}


/// Number of occurrences of `c` in `s`.
pub open spec fn count_char(s: Seq<char>, c: char) -> nat
    decreases s.len(),
{
    if s.len() == 0 {
        0
    } else {
        count_char(s.drop_last(), c) + if s.last() == c {
            1nat
        } else {
            0nat
        }
    }
}

/// Occurrences add up over a concatenation.
pub proof fn lemma_count_char_add(a: Seq<char>, b: Seq<char>, c: char)
    ensures
        count_char(a + b, c) == count_char(a, c) + count_char(b, c),
    decreases b.len(),
{
    if b.len() == 0 {
        assert(a + b =~= a);
    } else {
        assert((a + b).drop_last() =~= a + b.drop_last());
        lemma_count_char_add(a, b.drop_last(), c);
    }
}

/// A text without `c` holds no occurrence of it.
pub proof fn lemma_count_char_none(s: Seq<char>, c: char)
    requires
        forall|k: int| 0 <= k < s.len() ==> s[k] != c,
    ensures
        count_char(s, c) == 0,
    decreases s.len(),
{
    if s.len() > 0 {
        lemma_count_char_none(s.drop_last(), c);
    }
}

/// A suffix holds no more occurrences than the whole.
pub proof fn lemma_count_char_suffix(s: Seq<char>, i: int, c: char)
    requires
        0 <= i <= s.len(),
    ensures
        count_char(s.subrange(i, s.len() as int), c) <= count_char(s, c),
{
    assert(s =~= s.subrange(0, i) + s.subrange(i, s.len() as int));
    lemma_count_char_add(s.subrange(0, i), s.subrange(i, s.len() as int), c);
}

proof fn lemma_lead_all_ws(s: Seq<char>)
    ensures
        forall|k: int| 0 <= k < lead_ws(s) && k < s.len() ==> is_ws(s[k]),
    decreases s.len(),
{
    if s.len() > 0 && is_ws(s[0]) {
        lemma_lead_all_ws(s.drop_first());
        assert forall|k: int| 0 <= k < lead_ws(s) && k < s.len() implies is_ws(s[k]) by {
            if k > 0 {
                assert(s[k] == s.drop_first()[k - 1]);
            }
        }
    }
}

/// Trimming keeps every occurrence of a char that is not whitespace.
pub proof fn lemma_count_char_trim(s: Seq<char>, c: char)
    requires
        !is_ws(c),
    ensures
        count_char(trim_seq(s), c) == count_char(s, c),
{
    lemma_lead_ws(s);
    lemma_trail_ws(s);
    lemma_lead_all_ws(s);
    lemma_trim_bounds(s);
    let a = lead_ws(s) as int;
    if a >= s.len() {
        lemma_count_char_none(s, c);
    } else {
        let b = s.len() - trail_ws(s);
        let p = s.subrange(0, a);
        let m = s.subrange(a, b);
        let q = s.subrange(b, s.len() as int);
        assert(s =~= p + m + q);
        lemma_count_char_add(p + m, q, c);
        lemma_count_char_add(p, m, c);
        assert forall|k: int| 0 <= k < p.len() implies p[k] != c by {
            assert(is_ws(s[k]));
        }
        assert forall|k: int| 0 <= k < q.len() implies q[k] != c by {
            assert(is_ws(s[b + k]));
        }
        lemma_count_char_none(p, c);
        lemma_count_char_none(q, c);
    }
}

/// Number of occurrences of `c` in `v` (`str::matches(c).count()`).
pub fn count_chars(v: &Vec<char>, c: char) -> (n: usize)
    ensures
        n == count_char(v@, c),
        n <= v.len(),
{
    let mut n: usize = 0;
    let mut i: usize = 0;
    while i < v.len()
        invariant
            i <= v.len(),
            n <= i,
            n == count_char(v@.take(i as int), c),
        decreases v.len() - i,
    {
        assert(v@.take(i + 1).drop_last() =~= v@.take(i as int));
        if v[i] == c {
            n = n + 1;
        }
        i = i + 1;
    }
    assert(v@.take(v.len() as int) =~= v@);
    n
}

/// Whether two string slices hold the same chars (`==` on `str`).
pub fn str_eq(a: &str, b: &str) -> (r: bool)
    ensures
        r == (a@ == b@),
{
    let x = a.to_owned();
    let y = b.to_owned();
    x == y
}

/// A copy of `v`.
pub fn copy_chars(v: &Vec<char>) -> (r: Vec<char>)
    ensures
        r@ == v@,
{
    let r = slice_chars(v, 0, v.len());
    assert(v@.subrange(0, v.len() as int) =~= v@);
    r
}

/// Total number of chars of a sequence of lines.
pub open spec fn total_len(ls: Seq<Seq<char>>) -> nat
    decreases ls.len(),
{
    if ls.len() == 0 {
        0
    } else {
        total_len(ls.drop_last()) + ls.last().len()
    }
}

pub proof fn lemma_total_len_concat(a: Seq<Seq<char>>, b: Seq<Seq<char>>)
    ensures
        total_len(a + b) == total_len(a) + total_len(b),
    decreases b.len(),
{
    if b.len() == 0 {
        assert(a + b =~= a);
    } else {
        assert((a + b).drop_last() =~= a + b.drop_last());
        lemma_total_len_concat(a, b.drop_last());
    }
}

pub proof fn lemma_total_len_prefix(ls: Seq<Seq<char>>, j: int)
    requires
        0 <= j <= ls.len(),
    ensures
        total_len(ls.take(j)) <= total_len(ls),
        j < ls.len() ==> total_len(ls.take(j + 1)) == total_len(ls.take(j)) + ls[j].len(),
    decreases ls.len(),
{
    if j < ls.len() {
        assert(ls.take(j + 1).drop_last() =~= ls.take(j));
        assert(ls.drop_last().take(j) =~= ls.take(j));
        lemma_total_len_prefix(ls.drop_last(), j);
    } else {
        assert(ls.take(j) =~= ls);
    }
}

proof fn lemma_lines_acc_total(s: Seq<char>, start: int, i: int)
    requires
        0 <= start <= i <= s.len(),
    ensures
        total_len(lines_acc(s, start, i)) <= s.len() - start,
    decreases s.len() - i,
{
    if i >= s.len() {
        if start < s.len() {
            let one = seq![s.subrange(start, s.len() as int)];
            assert(one.drop_last() =~= Seq::<Seq<char>>::empty());
            assert(total_len(one.drop_last()) == 0);
        }
    } else if s[i] == '\n' {
        let e = if i > start && s[i - 1] == '\r' {
            i - 1
        } else {
            i
        };
        lemma_lines_acc_total(s, i + 1, i + 1);
        let one = seq![s.subrange(start, e)];
        assert(one.drop_last() =~= Seq::<Seq<char>>::empty());
        assert(total_len(one.drop_last()) == 0);
        lemma_total_len_concat(one, lines_acc(s, i + 1, i + 1));
    } else {
        lemma_lines_acc_total(s, start, i + 1);
    }
}

/// The lines of `s` hold no more chars than `s`.
pub proof fn lemma_lines_total(s: Seq<char>)
    ensures
        total_len(lines_of(s)) <= s.len(),
{
    lemma_lines_acc_total(s, 0, 0);
}

proof fn lemma_lines_acc_weight(s: Seq<char>, start: int, i: int)
    requires
        0 <= start <= i <= s.len(),
    ensures
        total_len(lines_acc(s, start, i)) + lines_acc(s, start, i).len() <= s.len() - start + 1,
    decreases s.len() - i,
{
    if i >= s.len() {
        if start < s.len() {
            let one = seq![s.subrange(start, s.len() as int)];
            assert(one.drop_last() =~= Seq::<Seq<char>>::empty());
            assert(total_len(one.drop_last()) == 0);
        }
    } else if s[i] == '\n' {
        let e = if i > start && s[i - 1] == '\r' {
            i - 1
        } else {
            i
        };
        lemma_lines_acc_weight(s, i + 1, i + 1);
        let one = seq![s.subrange(start, e)];
        assert(one.drop_last() =~= Seq::<Seq<char>>::empty());
        assert(total_len(one.drop_last()) == 0);
        lemma_total_len_concat(one, lines_acc(s, i + 1, i + 1));
    } else {
        lemma_lines_acc_weight(s, start, i + 1);
    }
}

/// The lines of `s`, each counted with one char for its ending, hold at most
/// one char more than `s`.
pub proof fn lemma_lines_weight(s: Seq<char>)
    ensures
        total_len(lines_of(s)) + lines_of(s).len() <= s.len() + 1,
{
    lemma_lines_acc_weight(s, 0, 0);
}

/// Lines joined with `"\n"` (what `[&str]::join("\n")` gives).
pub open spec fn join_nl(ls: Seq<Seq<char>>) -> Seq<char>
    decreases ls.len(),
{
    if ls.len() == 0 {
        Seq::empty()
    } else if ls.len() == 1 {
        ls[0]
    } else {
        join_nl(ls.drop_last()) + seq!['\n'] + ls.last()
    }
}

/// The lines of `ls` joined with `"\n"`.
pub fn join_lines(ls: &Vec<Vec<char>>) -> (r: Vec<char>)
    ensures
        r@ == join_nl(vviews(ls@)),
{
    let ghost lv = vviews(ls@);
    let mut r: Vec<char> = Vec::new();
    let mut k: usize = 0;
    while k < ls.len()
        invariant
            k <= ls.len(),
            lv == vviews(ls@),
            r@ == join_nl(lv.take(k as int)),
        decreases ls.len() - k,
    {
        assert(lv.take(k + 1).drop_last() =~= lv.take(k as int));
        assert(lv.take(k + 1).last() == ls@[k as int]@);
        if k > 0 {
            r.push('\n');
        }
        append_all(&mut r, &ls[k]);
        proof {
            if k == 0 {
                assert(r@ =~= lv.take(1)[0]);
            } else {
                assert(r@ =~= join_nl(lv.take(k as int)) + seq!['\n'] + ls@[k as int]@);
            }
        }
        k = k + 1;
    }
    assert(lv.take(ls.len() as int) =~= lv);
    r
}

pub proof fn lemma_lead_ws(s: Seq<char>)
    ensures
        lead_ws(s) <= s.len(),
        lead_ws(s) < s.len() ==> !is_ws(s[lead_ws(s) as int]),
    decreases s.len(),
{
    if s.len() > 0 && is_ws(s[0]) {
        lemma_lead_ws(s.drop_first());
        if lead_ws(s) < s.len() {
            assert(s.drop_first()[lead_ws(s.drop_first()) as int] == s[lead_ws(s) as int]);
        }
    }
}

pub proof fn lemma_trail_ws(s: Seq<char>)
    ensures
        trail_ws(s) <= s.len(),
        forall|k: int| s.len() - trail_ws(s) <= k < s.len() ==> is_ws(s[k]),
        trail_ws(s) < s.len() ==> !is_ws(s[s.len() - 1 - trail_ws(s)]),
    decreases s.len(),
{
    if s.len() > 0 && is_ws(s.last()) {
        lemma_trail_ws(s.drop_last());
        if trail_ws(s) < s.len() {
            assert(s.drop_last()[s.drop_last().len() - 1 - trail_ws(s.drop_last())] == s[s.len() - 1
                - trail_ws(s)]);
        }
        assert forall|k: int| s.len() - trail_ws(s) <= k < s.len() implies is_ws(s[k]) by {
            if k < s.len() - 1 {
                assert(s.drop_last()[k] == s[k]);
            }
        }
    }
}

/// Trimming keeps a middle part of `s`: leading and trailing whitespace do not overlap.
pub proof fn lemma_trim_bounds(s: Seq<char>)
    ensures
        lead_ws(s) < s.len() ==> lead_ws(s) + trail_ws(s) < s.len(),
        trim_seq(s).len() <= s.len(),
{
    lemma_lead_ws(s);
    lemma_trail_ws(s);
    if lead_ws(s) < s.len() && lead_ws(s) + trail_ws(s) >= s.len() {
        assert(is_ws(s[lead_ws(s) as int]));
    }
}

/// The lower-case form of `s`, as `str::to_lowercase` gives it.
pub uninterp spec fn lowercase_of(s: Seq<char>) -> Seq<char>;

/// `str::to_lowercase`.
///
/// Trusted: the result is `lowercase_of(s)`, a function of `s` alone (Unicode's
/// case mapping).
#[verifier::external_body]
pub(crate) fn to_lowercase(s: &str) -> (r: String)
    ensures
        r@ == lowercase_of(s@),
{
    s.to_lowercase()
}

/// Trimming a trimmed text changes nothing.
pub proof fn lemma_trim_idem(s: Seq<char>)
    ensures
        trim_seq(trim_seq(s)) == trim_seq(s),
{
    let t = trim_seq(s);
    lemma_trim_bounds(s);
    lemma_lead_ws(s);
    lemma_trail_ws(s);
    if t.len() > 0 {
        let a = lead_ws(s) as int;
        let b = s.len() - trail_ws(s);
        assert(t[0] == s[a]);
        assert(t[t.len() - 1] == s[b - 1]);
        assert(lead_ws(t) == 0);
        assert(trail_ws(t) == 0);
        assert(t.subrange(0, t.len() as int) =~= t);
    } else {
        assert(trim_seq(t) =~= t);
    }
}

/// Whether `s` has no whitespace at either end.
pub open spec fn is_trimmed(s: Seq<char>) -> bool {
    trim_seq(s) == s
}

/// The decimal digit `d`.
pub open spec fn digit_char(d: nat) -> char {
    seq!['0', '1', '2', '3', '4', '5', '6', '7', '8', '9'][d as int]
}

/// The decimal digits of `n`, most significant first.
pub open spec fn digits_of(n: nat) -> Seq<char>
    decreases n,
{
    if n < 10 {
        seq![digit_char(n)]
    } else {
        digits_of(n / 10) + seq![digit_char(n % 10)]
    }
}

/// `n` written in decimal, with a minus sign when negative.
pub open spec fn decimal(n: int) -> Seq<char> {
    if n < 0 {
        seq!['-'] + digits_of((-n) as nat)
    } else {
        digits_of(n as nat)
    }
}

/// The decimal digit `d`.
fn digit(d: u64) -> (c: char)
    requires
        d < 10,
    ensures
        c == digit_char(d as nat),
{
    let ds = ['0', '1', '2', '3', '4', '5', '6', '7', '8', '9'];
    assert(ds@ == seq!['0', '1', '2', '3', '4', '5', '6', '7', '8', '9']);
    ds[d as usize]
}

/// Append the decimal digits of `n` to `out`.
fn push_digits(n: u64, out: &mut Vec<char>)
    ensures
        final(out)@ == old(out)@ + digits_of(n as nat),
    decreases n,
{
    if n >= 10 {
        push_digits(n / 10, out);
    }
    out.push(digit(n % 10));
    assert(final(out)@ =~= old(out)@ + digits_of(n as nat));
}

/// `n` in decimal (what `format!("{}", n)` writes).
pub fn format_u64(n: u64) -> (r: String)
    ensures
        r@ == decimal(n as int),
{
    let mut v: Vec<char> = Vec::new();
    push_digits(n, &mut v);
    assert(v@ =~= digits_of(n as nat));
    string_from_chars(&v)
}

/// `n` in decimal, with a minus sign when negative.
pub fn format_i64(n: i64) -> (r: String)
    ensures
        r@ == decimal(n as int),
{
    let mut v: Vec<char> = Vec::new();
    if n < 0 {
        v.push('-');
        let m: u64 = if n == i64::MIN {
            9223372036854775808u64
        } else {
            (-n) as u64
        };
        push_digits(m, &mut v);
        assert(v@ =~= seq!['-'] + digits_of((-n) as nat));
    } else {
        push_digits(n as u64, &mut v);
        assert(v@ =~= digits_of(n as nat));
    }
    string_from_chars(&v)
}

} // verus!
