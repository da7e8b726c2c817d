//! Markdown text splitter that respects document structure.
use vstd::prelude::*;

use vstd::string::StringSliceAdditionalSpecFns;
use crate::splitter::{chunk_views, numbered_in_order, tidy_chunks, ChunkView, SplitConfig, TextChunk};
use crate::text::{
    append_all, append_range, byte_count, chars_of, lemma_byte_len_le_len, lemma_byte_off_mono, byte_len, byte_off, byte_offsets, is_ws, lines_of, slice_chars,
    split_lines, string_from_range, trim_bounds, trim_seq, vviews, is_trimmed, lemma_trim_idem,
    lemma_lines_weight, lemma_trim_bounds, total_len, count_char, lemma_count_char_add,
    lemma_count_char_suffix, lemma_count_char_trim, lemma_count_char_none,
};
use crate::types::{strings_view, ChunkMetadata, MetaView};

verus! {

broadcast use vstd::string::group_string_axioms;

// ---------------------------------------------------------------------------
// The model: sections of a markdown document.
// ---------------------------------------------------------------------------

/// A parsed markdown section, as plain values.
pub struct SecM {
    pub level: int,
    pub title: Seq<char>,
    pub path: Seq<Seq<char>>,
    pub content: Seq<char>,
}

/// The section that holds nothing (content before the first header starts so).
pub open spec fn empty_sec() -> SecM {
    SecM { level: 0, title: Seq::empty(), path: Seq::empty(), content: Seq::empty() }
}

/// The two-newline separator.
pub open spec fn nn() -> Seq<char> {
    seq!['\n', '\n']
}

/// Number of leading `'#'` chars of `s`.
pub open spec fn lead_hashes(s: Seq<char>) -> nat
    decreases s.len(),
{
    if s.len() > 0 && s[0] == '#' {
        1 + lead_hashes(s.drop_first())
    } else {
        0
    }
}

/// The ATX header held by a trimmed line: its level (the number of leading
/// `'#'`, from 1 to 6) and its trimmed title.
pub open spec fn header_of(t: Seq<char>) -> Option<(int, Seq<char>)> {
    let h = lead_hashes(t);
    if 0 < h && h <= 6 {
        Some((h as int, trim_seq(t.subrange(h as int, t.len() as int))))
    } else {
        None
    }
}

/// Titles of the earlier sections placed at their levels, for a header of level `lvl`.
pub open spec fn path_fold(secs: Seq<SecM>, lvl: int) -> Seq<Seq<char>>
    decreases secs.len(),
{
    if secs.len() == 0 {
        Seq::new(lvl as nat, |_i: int| Seq::<char>::empty())
    } else {
        let p0 = path_fold(secs.drop_last(), lvl);
        let s = secs.last();
        if 0 < s.level && s.level < lvl {
            p0.update(s.level - 1, s.title)
        } else {
            p0
        }
    }
}

/// The non-empty entries of `p`, in order.
pub open spec fn nonempty_only(p: Seq<Seq<char>>) -> Seq<Seq<char>>
    decreases p.len(),
{
    if p.len() == 0 {
        Seq::empty()
    } else {
        let r = nonempty_only(p.drop_last());
        if p.last().len() > 0 {
            r.push(p.last())
        } else {
            r
        }
    }
}

/// Breadcrumb of a header of level `lvl` with title `title` after the sections `secs`:
/// for each level below `lvl`, the title of the last earlier section of that level,
/// then the title itself, empty entries removed.
pub open spec fn build_path_spec(secs: Seq<SecM>, lvl: int, title: Seq<char>) -> Seq<Seq<char>> {
    if lvl <= 0 {
        Seq::empty()
    } else {
        nonempty_only(path_fold(secs, lvl).update(lvl - 1, title))
    }
}

/// Whether a section holds content beyond its header line: text before the
/// first header always counts; under a header, a line after the header's own
/// with more than whitespace on it.
pub open spec fn has_real(s: SecM) -> bool {
    let ct = trim_seq(s.content);
    ct.len() > 0 && (s.level == 0 || ct.contains('\n'))
}

/// One header-only section `p` merged in front of `acc`.
pub open spec fn merge_one(acc: SecM, p: SecM) -> SecM {
    SecM {
        level: if acc.level == 0 {
            p.level
        } else {
            acc.level
        },
        title: if acc.level == 0 {
            p.title
        } else {
            acc.title
        },
        path: if acc.level > p.level {
            p.path.push(p.title)
        } else {
            acc.path
        },
        content: trim_seq(p.content) + nn() + trim_seq(acc.content),
    }
}

/// The pending header-only sections merged in front of `acc`, the last pending first.
pub open spec fn merge_from(pend: Seq<SecM>, acc: SecM) -> SecM
    decreases pend.len(),
{
    if pend.len() == 0 {
        acc
    } else {
        merge_from(pend.drop_last(), merge_one(acc, pend.last()))
    }
}

/// The contents of the pending sections appended to `last`, in order.
pub open spec fn append_pending(last: SecM, pend: Seq<SecM>) -> SecM
    decreases pend.len(),
{
    if pend.len() == 0 {
        last
    } else {
        let l = append_pending(last, pend.drop_last());
        SecM { content: trim_seq(l.content) + nn() + trim_seq(pend.last().content), ..l }
    }
}

/// State of the section parser: finished sections, header-only sections waiting
/// for content, and the section being read.
pub struct PState {
    pub sections: Seq<SecM>,
    pub pending: Seq<SecM>,
    pub cur: SecM,
}

/// The parser state after reading `line`.
pub open spec fn parse_step(st: PState, line: Seq<char>) -> PState {
    match header_of(trim_seq(line)) {
        Some((lvl, title)) => {
            let sections = if has_real(st.cur) {
                st.sections.push(merge_from(st.pending, st.cur))
            } else {
                st.sections
            };
            let pending = if has_real(st.cur) {
                Seq::empty()
            } else if st.cur.level > 0 {
                st.pending.push(st.cur)
            } else {
                st.pending
            };
            PState {
                sections,
                pending,
                cur: SecM {
                    level: lvl,
                    title,
                    path: build_path_spec(sections, lvl, title),
                    content: line + nn(),
                },
            }
        },
        None => {
            let content = if st.cur.content.len() > 0 {
                st.cur.content.push('\n') + line
            } else {
                line
            };
            PState { cur: SecM { content, ..st.cur }, ..st }
        },
    }
}

/// The parser state after reading `lines`.
pub open spec fn parse_fold(lines: Seq<Seq<char>>) -> PState
    decreases lines.len(),
{
    if lines.len() == 0 {
        PState { sections: Seq::empty(), pending: Seq::empty(), cur: empty_sec() }
    } else {
        parse_step(parse_fold(lines.drop_last()), lines.last())
    }
}

/// The sections once the last line is read.
pub open spec fn finish_sections(st: PState) -> Seq<SecM> {
    if has_real(st.cur) {
        st.sections.push(merge_from(st.pending, st.cur))
    } else if st.cur.level > 0 && st.sections.len() > 0 {
        st.sections.update(
            st.sections.len() - 1,
            append_pending(st.sections.last(), st.pending.push(st.cur)),
        )
    } else {
        st.sections
    }
}

/// The sections of a markdown document: split at ATX headers, a section with
/// a header only merged in front of the next section with content.
pub open spec fn sections_of(md: Seq<char>) -> Seq<SecM> {
    finish_sections(parse_fold(lines_of(md)))
}

// ---------------------------------------------------------------------------
// The model: chunks of a section.
// ---------------------------------------------------------------------------

/// Index of the first char of `c` at or after index `j` whose byte offset is at least `b`.
pub open spec fn align_from(c: Seq<char>, j: int, b: int) -> int
    decreases c.len() - j,
{
    if j >= c.len() {
        c.len() as int
    } else if byte_off(c, j) >= b {
        j
    } else {
        align_from(c, j + 1, b)
    }
}

/// The char index at the first char boundary at or after byte `b` (or the end).
pub open spec fn align_idx(c: Seq<char>, b: int) -> int {
    align_from(c, 0, b)
}

/// Start of the last `"\n\n"` inside `c[lo..hi]`, or -1.
pub open spec fn rfind_nn(c: Seq<char>, lo: int, hi: int) -> int
    decreases hi - lo,
{
    if hi - lo < 2 {
        -1
    } else if c[hi - 2] == '\n' && c[hi - 1] == '\n' {
        hi - 2
    } else {
        rfind_nn(c, lo, hi - 1)
    }
}

/// Index of the last `'\n'` inside `c[lo..hi]`, or -1.
pub open spec fn rfind_nl(c: Seq<char>, lo: int, hi: int) -> int
    decreases hi - lo,
{
    if hi <= lo {
        -1
    } else if c[hi - 1] == '\n' {
        hi - 1
    } else {
        rfind_nl(c, lo, hi - 1)
    }
}

/// Smaller of two integers.
pub open spec fn min_int(a: int, b: int) -> int {
    if a <= b {
        a
    } else {
        b
    }
}

/// End (char index) of the chunk of `c` that starts at char `s`: after the last
/// paragraph break, else after the last line break, of the first `cs` bytes plus up
/// to 200 more; else at `cs` bytes.
pub open spec fn split_point(c: Seq<char>, cs: int, s: int) -> int {
    let l = byte_len(c) as int;
    let ie = min_int(byte_off(c, s) + cs, l);
    if ie == l {
        c.len() as int
    } else {
        let se = align_idx(c, ie + min_int(200, l - ie));
        let k = rfind_nn(c, s, se);
        if k >= 0 {
            k + 2
        } else {
            let k2 = rfind_nl(c, s, se);
            if k2 >= 0 {
                k2 + 1
            } else {
                align_idx(c, ie)
            }
        }
    }
}

/// Metadata of every chunk of a section.
pub open spec fn sec_meta(sec: SecM) -> MetaView {
    MetaView {
        level: Some(sec.level),
        path: if sec.path.len() == 0 {
            None
        } else {
            Some(sec.path)
        },
        types: Some(seq!["text"@]),
    }
}

/// The chunks of the trimmed section content `c`, from byte `sb` on, appended to `acc`,
/// with the next sort order. The next piece starts `ov` bytes before the end of
/// this one, or at its end where that would not move forward.
pub open spec fn sec_loop(
    c: Seq<char>,
    sec: SecM,
    cs: int,
    ov: int,
    sb: int,
    so: int,
    acc: Seq<ChunkView>,
) -> (Seq<ChunkView>, int)
    decreases byte_len(c) - sb,
{
    let l = byte_len(c) as int;
    let s = align_idx(c, sb);
    if sb >= l || s >= c.len() {
        (acc, so)
    } else {
        let e = split_point(c, cs, s);
        let ch = trim_seq(c.subrange(s, e));
        let acc2 = if ch.len() > 0 {
            acc.push(ChunkView { content: ch, meta: sec_meta(sec), sort_order: so })
        } else {
            acc
        };
        let so2 = if ch.len() > 0 {
            so + 1
        } else {
            so
        };
        let sbb = byte_off(c, s) as int;
        let eb = byte_off(c, e) as int;
        let ns = if eb >= ov {
            eb - ov
        } else {
            0
        };
        let nsb = if ns <= sbb {
            if eb > sbb {
                eb
            } else {
                min_int(sbb + cs, l)
            }
        } else {
            ns
        };
        if nsb > sb && nsb < l {
            sec_loop(c, sec, cs, ov, nsb, so2, acc2)
        } else {
            (acc2, so2)
        }
    }
}

/// The chunks of one section and the next sort order: the trimmed content as one
/// chunk when it fits in `chunk_size` bytes, else pieces ending at paragraph or
/// line breaks, overlapping by `chunk_overlap` bytes; each chunk takes the next
/// sort order.
pub open spec fn section_chunks(sec: SecM, cfg: SplitConfig, so: int) -> (Seq<ChunkView>, int) {
    let c = trim_seq(sec.content);
    if c.len() == 0 {
        (Seq::empty(), so)
    } else if byte_len(c) <= cfg.chunk_size {
        (seq![ChunkView { content: c, meta: sec_meta(sec), sort_order: so }], so + 1)
    } else {
        sec_loop(c, sec, cfg.chunk_size as int, cfg.chunk_overlap as int, 0, so, Seq::empty())
    }
}

/// The chunks of the sections `secs` and the next sort order.
pub open spec fn sections_chunks(secs: Seq<SecM>, cfg: SplitConfig) -> (Seq<ChunkView>, int)
    decreases secs.len(),
{
    if secs.len() == 0 {
        (Seq::empty(), 0)
    } else {
        let (acc, so) = sections_chunks(secs.drop_last(), cfg);
        let (cs, so2) = section_chunks(secs.last(), cfg, so);
        (acc + cs, so2)
    }
}

/// The chunks that splitting `md` yields.
pub open spec fn markdown_chunks(md: Seq<char>, cfg: SplitConfig) -> Seq<ChunkView> {
    if trim_seq(md).len() == 0 {
        Seq::empty()
    } else {
        sections_chunks(sections_of(md), cfg).0
    }
}

/// Whether every sort order that splitting `md` hands out fits in an `i32`.
pub open spec fn markdown_fits(md: Seq<char>, cfg: SplitConfig) -> bool {
    trim_seq(md).len() == 0 || sections_chunks(sections_of(md), cfg).1 <= i32::MAX
}

// ---------------------------------------------------------------------------
// How many sort orders a split hands out.
// ---------------------------------------------------------------------------

/// The number of chars in the contents of `secs`.
pub open spec fn content_sum(secs: Seq<SecM>) -> int
    decreases secs.len(),
{
    if secs.len() == 0 {
        0
    } else {
        content_sum(secs.drop_last()) + secs.last().content.len()
    }
}

/// The chars of the pending sections `ps`, each counted with the two of the
/// separator that merging it adds.
pub open spec fn pending_sum(ps: Seq<SecM>) -> int
    decreases ps.len(),
{
    if ps.len() == 0 {
        0
    } else {
        pending_sum(ps.drop_last()) + ps.last().content.len() + 2
    }
}

/// What the section being read may still add when it is left pending.
pub open spec fn cur_credit(c: SecM) -> int {
    if c.level > 0 {
        2
    } else {
        0
    }
}

/// The chars a parser state holds or may still add.
pub open spec fn state_weight(st: PState) -> int {
    content_sum(st.sections) + pending_sum(st.pending) + st.cur.content.len() + cur_credit(st.cur)
}

proof fn lemma_content_sum_push(secs: Seq<SecM>, x: SecM)
    ensures
        content_sum(secs.push(x)) == content_sum(secs) + x.content.len(),
{
    assert(secs.push(x).drop_last() =~= secs);
}

proof fn lemma_pending_sum_push(ps: Seq<SecM>, x: SecM)
    ensures
        pending_sum(ps.push(x)) == pending_sum(ps) + x.content.len() + 2,
{
    assert(ps.push(x).drop_last() =~= ps);
}

proof fn lemma_pending_sum_nonneg(ps: Seq<SecM>)
    ensures
        pending_sum(ps) >= 0,
    decreases ps.len(),
{
    if ps.len() > 0 {
        lemma_pending_sum_nonneg(ps.drop_last());
    }
}

proof fn lemma_merge_from_len(pend: Seq<SecM>, acc: SecM)
    ensures
        merge_from(pend, acc).content.len() <= acc.content.len() + pending_sum(pend),
    decreases pend.len(),
{
    if pend.len() > 0 {
        let p = pend.last();
        lemma_trim_bounds(p.content);
        lemma_trim_bounds(acc.content);
        lemma_merge_from_len(pend.drop_last(), merge_one(acc, p));
    }
}

proof fn lemma_append_pending_len(last: SecM, pend: Seq<SecM>)
    ensures
        append_pending(last, pend).content.len() <= last.content.len() + pending_sum(pend),
    decreases pend.len(),
{
    if pend.len() > 0 {
        lemma_append_pending_len(last, pend.drop_last());
        let l = append_pending(last, pend.drop_last());
        lemma_trim_bounds(l.content);
        lemma_trim_bounds(pend.last().content);
    }
}

/// Reading lines adds at most four chars to the parser state beyond each line's own.
proof fn lemma_parse_fold_weight(ls: Seq<Seq<char>>)
    ensures
        state_weight(parse_fold(ls)) <= total_len(ls) + 4 * ls.len(),
    decreases ls.len(),
{
    if ls.len() == 0 {
        let st = parse_fold(ls);
        assert(st.sections.len() == 0 && st.pending.len() == 0);
    } else {
        lemma_parse_fold_weight(ls.drop_last());
        let st = parse_fold(ls.drop_last());
        let line = ls.last();
        match header_of(trim_seq(line)) {
            Some((lvl, title)) => {
                if has_real(st.cur) {
                    lemma_merge_from_len(st.pending, st.cur);
                    lemma_content_sum_push(st.sections, merge_from(st.pending, st.cur));
                    assert(pending_sum(Seq::<SecM>::empty()) == 0);
                } else if st.cur.level > 0 {
                    lemma_pending_sum_push(st.pending, st.cur);
                }
            },
            None => {},
        }
    }
}

/// Finishing adds nothing that the parser state did not count.
proof fn lemma_finish_weight(st: PState)
    ensures
        content_sum(finish_sections(st)) <= state_weight(st),
{
    lemma_pending_sum_nonneg(st.pending);
    if has_real(st.cur) {
        lemma_merge_from_len(st.pending, st.cur);
        lemma_content_sum_push(st.sections, merge_from(st.pending, st.cur));
    } else if st.cur.level > 0 && st.sections.len() > 0 {
        let n = st.sections.len();
        let x = append_pending(st.sections.last(), st.pending.push(st.cur));
        lemma_append_pending_len(st.sections.last(), st.pending.push(st.cur));
        lemma_pending_sum_push(st.pending, st.cur);
        let u = st.sections.update(n - 1, x);
        assert(u.drop_last() =~= st.sections.drop_last());
    }
}

proof fn lemma_sec_loop_count(
    c: Seq<char>,
    sec: SecM,
    cs: int,
    ov: int,
    sb: int,
    so: int,
    acc: Seq<ChunkView>,
)
    ensures
        sec_loop(c, sec, cs, ov, sb, so, acc).1 <= so + (if byte_len(c) > sb {
            byte_len(c) - sb
        } else {
            0
        }),
    decreases byte_len(c) - sb,
{
    let l = byte_len(c) as int;
    let s = align_idx(c, sb);
    if sb >= l || s >= c.len() {
    } else {
        let e = split_point(c, cs, s);
        let ch = trim_seq(c.subrange(s, e));
        let acc2 = if ch.len() > 0 {
            acc.push(ChunkView { content: ch, meta: sec_meta(sec), sort_order: so })
        } else {
            acc
        };
        let so2 = if ch.len() > 0 {
            so + 1
        } else {
            so
        };
        let sbb = byte_off(c, s) as int;
        let eb = byte_off(c, e) as int;
        let ns = if eb >= ov {
            eb - ov
        } else {
            0
        };
        let nsb = if ns <= sbb {
            if eb > sbb {
                eb
            } else {
                min_int(sbb + cs, l)
            }
        } else {
            ns
        };
        if nsb > sb && nsb < l {
            lemma_sec_loop_count(c, sec, cs, ov, nsb, so2, acc2);
        }
    }
}

proof fn lemma_sections_chunks_count(secs: Seq<SecM>, cfg: SplitConfig)
    ensures
        sections_chunks(secs, cfg).1 <= 4 * content_sum(secs),
    decreases secs.len(),
{
    if secs.len() > 0 {
        lemma_sections_chunks_count(secs.drop_last(), cfg);
        let so = sections_chunks(secs.drop_last(), cfg).1;
        let sec = secs.last();
        let c = trim_seq(sec.content);
        lemma_trim_bounds(sec.content);
        lemma_byte_len_le_len(c);
        lemma_sec_loop_count(c, sec, cfg.chunk_size as int, cfg.chunk_overlap as int, 0, so, Seq::empty());
    }
}

/// Splitting markdown hands out sort orders no larger than sixteen times the
/// number of its chars plus one; so a document of fewer than 134,217,727 chars
/// meets the `requires` of `MarkdownSplitter::split`.
pub proof fn law_markdown_split_count(md: Seq<char>, cfg: SplitConfig)
    ensures
        sections_chunks(sections_of(md), cfg).1 <= 16 * (md.len() + 1),
        md.len() < 134_217_727 ==> markdown_fits(md, cfg),
{
    let ls = lines_of(md);
    lemma_lines_weight(md);
    lemma_parse_fold_weight(ls);
    lemma_finish_weight(parse_fold(ls));
    lemma_sections_chunks_count(sections_of(md), cfg);
}


// ---------------------------------------------------------------------------
// Sections
// ---------------------------------------------------------------------------

/// A parsed markdown section.
struct Section {
    level: i32,
    title: Vec<char>,
    path: Vec<Vec<char>>,
    content: Vec<char>,
}

impl Section {
    spec fn m(&self) -> SecM {
        SecM {
            level: self.level as int,
            title: self.title@,
            path: vviews(self.path@),
            content: self.content@,
        }
    }
}

spec fn secs_view(v: Seq<Section>) -> Seq<SecM> {
    v.map_values(|s: Section| s.m())
}

spec fn levels_ok(v: Seq<Section>) -> bool {
    forall|i: int| 0 <= i < v.len() ==> 0 <= #[trigger] v[i].level <= 6
}

fn copy_chars(v: &Vec<char>) -> (r: Vec<char>)
    ensures
        r@ == v@,
{
    let r = slice_chars(v, 0, v.len());
    assert(v@.subrange(0, v.len() as int) =~= v@);
    r
}

fn copy_path(p: &Vec<Vec<char>>) -> (r: Vec<Vec<char>>)
    ensures
        vviews(r@) == vviews(p@),
{
    let mut r: Vec<Vec<char>> = Vec::new();
    let mut i: usize = 0;
    while i < p.len()
        invariant
            i <= p.len(),
            vviews(r@) == vviews(p@).take(i as int),
        decreases p.len() - i,
    {
        let c = copy_chars(&p[i]);
        let ghost old_r = vviews(r@);
        r.push(c);
        assert(vviews(r@) =~= old_r.push(c@));
        assert(vviews(p@).take(i + 1) =~= vviews(p@).take(i as int).push(p@[i as int]@));
        i = i + 1;
    }
    assert(vviews(p@).take(p.len() as int) =~= vviews(p@));
    r
}

fn to_strings(p: &Vec<Vec<char>>) -> (r: Vec<String>)
    ensures
        strings_view(r@) == vviews(p@),
{
    let mut r: Vec<String> = Vec::new();
    let mut i: usize = 0;
    while i < p.len()
        invariant
            i <= p.len(),
            strings_view(r@) == vviews(p@).take(i as int),
        decreases p.len() - i,
    {
        let c = string_from_range(&p[i], 0, p[i].len());
        assert(p@[i as int]@.subrange(0, p@[i as int]@.len() as int) =~= p@[i as int]@);
        let ghost old_r = strings_view(r@);
        r.push(c);
        assert(strings_view(r@) =~= old_r.push(c@));
        assert(vviews(p@).take(i + 1) =~= vviews(p@).take(i as int).push(p@[i as int]@));
        i = i + 1;
    }
    assert(vviews(p@).take(p.len() as int) =~= vviews(p@));
    r
}

/// Number of leading `'#'` chars of `t`.
fn count_hashes(t: &Vec<char>) -> (n: usize)
    ensures
        n == lead_hashes(t@),
        n <= t.len(),
{
    let mut i: usize = 0;
    assert(t@.subrange(0, t.len() as int) =~= t@);
    while i < t.len() && t[i] == '#'
        invariant
            i <= t.len(),
            lead_hashes(t@) == i + lead_hashes(t@.subrange(i as int, t.len() as int)),
        decreases t.len() - i,
    {
        assert(t@.subrange(i as int, t.len() as int).drop_first() =~= t@.subrange(
            i + 1,
            t.len() as int,
        ));
        i = i + 1;
    }
    i
}

/// Parse a trimmed line as an ATX header (`# Title`), giving its level and title.
fn parse_header(t: &Vec<char>) -> (r: Option<(i32, Vec<char>)>)
    ensures
        match header_of(t@) {
            Some((l, ti)) => r matches Some(x) && x.0 as int == l && x.1@ == ti,
            None => r is None,
        },
{
    let h = count_hashes(t);
    if h > 0 && h <= 6 {
        let (a, b) = trim_bounds(t, h, t.len());
        Some((h as i32, slice_chars(t, a, b)))
    } else {
        None
    }
}

proof fn lemma_path_fold_len(secs: Seq<SecM>, lvl: int)
    requires
        lvl >= 0,
    ensures
        path_fold(secs, lvl).len() == lvl,
    decreases secs.len(),
{
    if secs.len() > 0 {
        lemma_path_fold_len(secs.drop_last(), lvl);
    }
}

/// Breadcrumb of parent headers for a header of level `level`.
fn build_path(sections: &Vec<Section>, level: i32, title: &Vec<char>) -> (r: Vec<Vec<char>>)
    requires
        0 < level <= 6,
    ensures
        vviews(r@) == build_path_spec(secs_view(sections@), level as int, title@),
{
    let lvl = level as usize;
    let mut p: Vec<Vec<char>> = Vec::new();
    let mut k: usize = 0;
    while k < lvl
        invariant
            k <= lvl,
            lvl == level as int,
            forall|m: int| 0 <= m < k ==> (#[trigger] vviews(p@)[m]) == Seq::<char>::empty(),
            p.len() == k,
        decreases lvl - k,
    {
        let e: Vec<char> = Vec::new();
        let ghost old_p = vviews(p@);
        p.push(e);
        assert(vviews(p@) =~= old_p.push(Seq::<char>::empty()));
        k = k + 1;
    }
    let ghost sv = secs_view(sections@);
    assert(vviews(p@) =~= path_fold(sv.take(0), level as int));
    let mut i: usize = 0;
    while i < sections.len()
        invariant
            i <= sections.len(),
            sv == secs_view(sections@),
            lvl == level as int,
            0 < level <= 6,
            p.len() == lvl,
            vviews(p@) == path_fold(sv.take(i as int), level as int),
        decreases sections.len() - i,
    {
        let sl = sections[i].level;
        assert(sv.take(i + 1).drop_last() =~= sv.take(i as int));
        assert(sv.take(i + 1).last() == sections@[i as int].m());
        if sl < level && sl > 0 {
            let t = copy_chars(&sections[i].title);
            let ghost old_p = vviews(p@);
            p.set((sl - 1) as usize, t);
            assert(vviews(p@) =~= old_p.update(sl - 1, t@));
        }
        i = i + 1;
    }
    assert(sv.take(sections.len() as int) =~= sv);
    let t = copy_chars(title);
    let ghost old_p = vviews(p@);
    p.set(lvl - 1, t);
    assert(vviews(p@) =~= old_p.update(lvl - 1, title@));
    let ghost q = vviews(p@);
    let mut r: Vec<Vec<char>> = Vec::new();
    let mut j: usize = 0;
    assert(q.take(0) =~= Seq::<Seq<char>>::empty());
    while j < p.len()
        invariant
            j <= p.len(),
            q == vviews(p@),
            vviews(r@) == nonempty_only(q.take(j as int)),
        decreases p.len() - j,
    {
        assert(q.take(j + 1).drop_last() =~= q.take(j as int));
        assert(q.take(j + 1).last() == p@[j as int]@);
        if p[j].len() > 0 {
            let c = copy_chars(&p[j]);
            let ghost old_r = vviews(r@);
            r.push(c);
            assert(vviews(r@) =~= old_r.push(c@));
        }
        j = j + 1;
    }
    assert(q.take(p.len() as int) =~= q);
    r
}

/// Whether a section holds content beyond its header line.
fn has_real_content(s: &Section) -> (b: bool)
    ensures
        b == has_real(s.m()),
{
    let (a, e) = trim_bounds(&s.content, 0, s.content.len());
    assert(s.content@.subrange(0, s.content.len() as int) =~= s.content@);
    if a == e {
        return false;
    }
    if s.level == 0 {
        return true;
    }
    let ghost ct = s.content@.subrange(a as int, e as int);
    let mut i: usize = a;
    while i < e
        invariant
            a <= i <= e <= s.content.len(),
            ct == s.content@.subrange(a as int, e as int),
            ct == trim_seq(s.content@),
            s.level != 0,
            a < e,
            forall|k: int| a <= k < i ==> s.content@[k] != '\n',
        decreases e - i,
    {
        if s.content[i] == '\n' {
            assert(ct[i - a] == '\n');
            assert(ct.contains('\n'));
            return true;
        }
        i = i + 1;
    }
    assert forall|k: int| 0 <= k < ct.len() implies ct[k] != '\n' by {
        assert(ct[k] == s.content@[a + k]);
    }
    false
}

/// Content `trim(a) + "\n\n" + trim(b)`.
fn join_trimmed(a: &Vec<char>, b: &Vec<char>) -> (r: Vec<char>)
    ensures
        r@ == trim_seq(a@) + nn() + trim_seq(b@),
{
    let (x, y) = trim_bounds(a, 0, a.len());
    assert(a@.subrange(0, a.len() as int) =~= a@);
    let mut r = slice_chars(a, x, y);
    r.push('\n');
    r.push('\n');
    let (u, w) = trim_bounds(b, 0, b.len());
    assert(b@.subrange(0, b.len() as int) =~= b@);
    append_range(&mut r, b, u, w);
    assert(r@ =~= trim_seq(a@) + nn() + trim_seq(b@));
    r
}

/// One header-only section merged in front of `acc`.
fn merge_one_exec(acc: Section, p: &Section) -> (r: Section)
    requires
        0 <= acc.level <= 6,
        0 <= p.level <= 6,
    ensures
        r.m() == merge_one(acc.m(), p.m()),
        0 <= r.level <= 6,
{
    let content = join_trimmed(&p.content, &acc.content);
    let path = if acc.level > p.level {
        let mut np = copy_path(&p.path);
        let t = copy_chars(&p.title);
        let ghost old_np = vviews(np@);
        np.push(t);
        assert(vviews(np@) =~= old_np.push(t@));
        np
    } else {
        acc.path
    };
    let (level, title) = if acc.level == 0 {
        (p.level, copy_chars(&p.title))
    } else {
        (acc.level, acc.title)
    };
    Section { level, title, path, content }
}

/// The pending header-only sections merged in front of `cur`, the last pending first.
fn merge_pending(cur: Section, pending: &Vec<Section>) -> (r: Section)
    requires
        0 <= cur.level <= 6,
        levels_ok(pending@),
    ensures
        r.m() == merge_from(secs_view(pending@), cur.m()),
        0 <= r.level <= 6,
{
    let ghost pv = secs_view(pending@);
    let ghost c0 = cur.m();
    let mut acc = cur;
    let mut k = pending.len();
    assert(pv.take(k as int) =~= pv);
    while k > 0
        invariant
            k <= pending.len(),
            pv == secs_view(pending@),
            levels_ok(pending@),
            0 <= acc.level <= 6,
            merge_from(pv, c0) == merge_from(pv.take(k as int), acc.m()),
        decreases k,
    {
        assert(pv.take(k as int).drop_last() =~= pv.take(k - 1));
        assert(pv.take(k as int).last() == pending@[k - 1].m());
        acc = merge_one_exec(acc, &pending[k - 1]);
        k = k - 1;
    }
    acc
}

/// The contents of the pending sections appended to `last`, in order.
fn append_pending_exec(last: Section, pending: &Vec<Section>) -> (r: Section)
    requires
        0 <= last.level <= 6,
    ensures
        r.m() == append_pending(last.m(), secs_view(pending@)),
        0 <= r.level <= 6,
{
    let ghost pv = secs_view(pending@);
    let ghost l0 = last.m();
    let mut l = last;
    let mut i: usize = 0;
    assert(pv.take(0) =~= Seq::<SecM>::empty());
    while i < pending.len()
        invariant
            i <= pending.len(),
            pv == secs_view(pending@),
            0 <= l.level <= 6,
            l.m() == append_pending(l0, pv.take(i as int)),
        decreases pending.len() - i,
    {
        assert(pv.take(i + 1).drop_last() =~= pv.take(i as int));
        assert(pv.take(i + 1).last() == pending@[i as int].m());
        let content = join_trimmed(&l.content, &pending[i].content);
        l = Section { level: l.level, title: l.title, path: l.path, content };
        i = i + 1;
    }
    assert(pv.take(pending.len() as int) =~= pv);
    l
}

spec fn pstate(sections: Seq<Section>, pending: Seq<Section>, cur: Section) -> PState {
    PState { sections: secs_view(sections), pending: secs_view(pending), cur: cur.m() }
}

/// Parse markdown into sections based on headers. Sections that only contain
/// a header are merged with the next section.
fn parse_sections(md: &Vec<char>) -> (r: Vec<Section>)
    ensures
        secs_view(r@) == sections_of(md@),
        levels_ok(r@),
{
    let lines = split_lines(md);
    let ghost lv = vviews(lines@);
    let mut sections: Vec<Section> = Vec::new();
    let mut pending: Vec<Section> = Vec::new();
    let mut cur = Section { level: 0, title: Vec::new(), path: Vec::new(), content: Vec::new() };
    assert(vviews(cur.path@) =~= Seq::<Seq<char>>::empty());
    assert(secs_view(sections@) =~= Seq::<SecM>::empty());
    assert(secs_view(pending@) =~= Seq::<SecM>::empty());
    assert(lv.take(0) =~= Seq::<Seq<char>>::empty());
    let mut i: usize = 0;
    while i < lines.len()
        invariant
            i <= lines.len(),
            lv == vviews(lines@),
            lv == lines_of(md@),
            levels_ok(sections@),
            levels_ok(pending@),
            0 <= cur.level <= 6,
            pstate(sections@, pending@, cur) == parse_fold(lv.take(i as int)),
        decreases lines.len() - i,
    {
        assert(lv.take(i + 1).drop_last() =~= lv.take(i as int));
        assert(lv.take(i + 1).last() == lines@[i as int]@);
        let line = &lines[i];
        let (a, b) = trim_bounds(line, 0, line.len());
        assert(line@.subrange(0, line.len() as int) =~= line@);
        let trimmed = slice_chars(line, a, b);
        match parse_header(&trimmed) {
            Some((lvl, title)) => {
                let hr = has_real_content(&cur);
                if hr {
                    let merged = merge_pending(cur, &pending);
                    let ghost old_s = secs_view(sections@);
                    sections.push(merged);
                    assert(secs_view(sections@) =~= old_s.push(merged.m()));
                    pending = Vec::new();
                    assert(secs_view(pending@) =~= Seq::<SecM>::empty());
                } else if cur.level > 0 {
                    let ghost old_p = secs_view(pending@);
                    let ghost cm = cur.m();
                    pending.push(cur);
                    assert(secs_view(pending@) =~= old_p.push(cm));
                }
                let path = build_path(&sections, lvl, &title);
                let mut content = copy_chars(line);
                content.push('\n');
                content.push('\n');
                assert(content@ =~= line@ + nn());
                cur = Section { level: lvl, title, path, content };
            },
            None => {
                let ghost old_c = cur.content@;
                if cur.content.len() > 0 {
                    cur.content.push('\n');
                }
                append_all(&mut cur.content, line);
            },
        }
        i = i + 1;
    }
    assert(lv.take(lines.len() as int) =~= lv);
    if has_real_content(&cur) {
        let merged = merge_pending(cur, &pending);
        let ghost old_s = secs_view(sections@);
        sections.push(merged);
        assert(secs_view(sections@) =~= old_s.push(merged.m()));
    } else if cur.level > 0 && sections.len() > 0 {
        let ghost old_p = secs_view(pending@);
        let ghost old_s = secs_view(sections@);
        let ghost cm = cur.m();
        pending.push(cur);
        assert(secs_view(pending@) =~= old_p.push(cm));
        let last = sections.pop().unwrap();
        assert(old_s.last() == last.m());
        let last = append_pending_exec(last, &pending);
        sections.push(last);
        assert(secs_view(sections@) =~= old_s.update(old_s.len() - 1, last.m()));
    }
    sections
}


// ---------------------------------------------------------------------------
// Chunks of a section
// ---------------------------------------------------------------------------

spec fn offs_ok(c: Seq<char>, offs: Seq<u128>) -> bool {
    &&& offs.len() == c.len() + 1
    &&& forall|i: int| 0 <= i <= c.len() ==> offs[i] == byte_off(c, i)
}

pub(crate) proof fn lemma_off_end(c: Seq<char>)
    ensures
        byte_off(c, c.len() as int) == byte_len(c),
{
    assert(c.take(c.len() as int) =~= c);
}

proof fn lemma_off_bound(c: Seq<char>, i: int)
    requires
        0 <= i <= c.len(),
    ensures
        byte_off(c, i) <= 4 * i,
{
    lemma_byte_off_mono(c, 0, i);
    assert(c.take(0) =~= Seq::<char>::empty());
}

/// Facts on `align_from`: its result lies in `[j, n]`, has a byte offset of at
/// least `b` unless it is `n`, and no index in `[j, result)` has.
proof fn lemma_align_from(c: Seq<char>, j: int, b: int)
    requires
        0 <= j <= c.len(),
    ensures
        j <= align_from(c, j, b) <= c.len(),
        align_from(c, j, b) < c.len() ==> byte_off(c, align_from(c, j, b)) >= b,
        forall|k: int| j <= k < align_from(c, j, b) ==> byte_off(c, k) < b,
    decreases c.len() - j,
{
    if j < c.len() && byte_off(c, j) < b {
        lemma_align_from(c, j + 1, b);
    }
}

/// Skipping indices whose offsets are below `b` does not change the aligned index.
proof fn lemma_align_skip(c: Seq<char>, j: int, b: int)
    requires
        0 <= j <= c.len(),
        forall|k: int| 0 <= k < j ==> byte_off(c, k) < b,
    ensures
        align_idx(c, b) == align_from(c, j, b),
    decreases j,
{
    if j > 0 {
        lemma_align_skip(c, j - 1, b);
        assert(byte_off(c, j - 1) < b);
    }
}

/// The aligned index lies in `[s, n]` when `b` is at least the offset of char `s`.
proof fn lemma_align_idx_ge(c: Seq<char>, s: int, b: int)
    requires
        0 <= s <= c.len(),
        byte_off(c, s) <= b,
    ensures
        s <= align_idx(c, b) <= c.len(),
{
    assert forall|k: int| 0 <= k < s implies byte_off(c, k) < b by {
        lemma_byte_off_mono(c, k, s);
    }
    lemma_align_skip(c, s, b);
    lemma_align_from(c, s, b);
}

proof fn lemma_rfind_nn(c: Seq<char>, lo: int, hi: int)
    ensures
        rfind_nn(c, lo, hi) == -1 || (lo <= rfind_nn(c, lo, hi) && rfind_nn(c, lo, hi) + 2 <= hi),
    decreases hi - lo,
{
    if hi - lo >= 2 && !(c[hi - 2] == '\n' && c[hi - 1] == '\n') {
        lemma_rfind_nn(c, lo, hi - 1);
    }
}

proof fn lemma_rfind_nl(c: Seq<char>, lo: int, hi: int)
    ensures
        rfind_nl(c, lo, hi) == -1 || (lo <= rfind_nl(c, lo, hi) && rfind_nl(c, lo, hi) + 1 <= hi),
    decreases hi - lo,
{
    if hi > lo && c[hi - 1] != '\n' {
        lemma_rfind_nl(c, lo, hi - 1);
    }
}

/// The end of a chunk lies after its start and within the content.
proof fn lemma_split_point(c: Seq<char>, cs: int, s: int)
    requires
        0 <= s < c.len(),
        cs >= 0,
    ensures
        s <= split_point(c, cs, s) <= c.len(),
{
    let l = byte_len(c) as int;
    lemma_off_end(c);
    lemma_byte_off_mono(c, s, c.len() as int);
    let ie = min_int(byte_off(c, s) + cs, l);
    if ie != l {
        let se = align_idx(c, ie + min_int(200, l - ie));
        lemma_align_idx_ge(c, s, ie + min_int(200, l - ie));
        lemma_rfind_nn(c, s, se);
        lemma_rfind_nl(c, s, se);
        lemma_align_idx_ge(c, s, ie);
    }
}

proof fn lemma_sec_loop_mono(
    c: Seq<char>,
    sec: SecM,
    cs: int,
    ov: int,
    sb: int,
    so: int,
    acc: Seq<ChunkView>,
)
    ensures
        sec_loop(c, sec, cs, ov, sb, so, acc).1 >= so,
    decreases byte_len(c) - sb,
{
    let l = byte_len(c) as int;
    let s = align_idx(c, sb);
    if sb >= l || s >= c.len() {
    } else {
        let e = split_point(c, cs, s);
        let ch = trim_seq(c.subrange(s, e));
        let acc2 = if ch.len() > 0 {
            acc.push(ChunkView { content: ch, meta: sec_meta(sec), sort_order: so })
        } else {
            acc
        };
        let so2 = if ch.len() > 0 {
            so + 1
        } else {
            so
        };
        let sbb = byte_off(c, s) as int;
        let eb = byte_off(c, e) as int;
        let ns = if eb >= ov {
            eb - ov
        } else {
            0
        };
        let nsb = if ns <= sbb {
            if eb > sbb {
                eb
            } else {
                min_int(sbb + cs, l)
            }
        } else {
            ns
        };
        if nsb > sb && nsb < l {
            lemma_sec_loop_mono(c, sec, cs, ov, nsb, so2, acc2);
        }
    }
}

/// Index of the first char whose byte offset is at least `b`, or the end.
fn align_index(c: &Vec<char>, offs: &Vec<u128>, b: u128) -> (j: usize)
    requires
        offs_ok(c@, offs@),
    ensures
        j == align_idx(c@, b as int),
        j <= c.len(),
{
    let mut j: usize = 0;
    while j < c.len() && offs[j] < b
        invariant
            j <= c.len(),
            offs_ok(c@, offs@),
            align_idx(c@, b as int) == align_from(c@, j as int, b as int),
        decreases c.len() - j,
    {
        j = j + 1;
    }
    j
}

/// Start of the last `"\n\n"` inside `c[lo..hi]`.
fn rfind_pair(c: &Vec<char>, lo: usize, hi: usize) -> (r: Option<usize>)
    requires
        lo <= hi <= c.len(),
    ensures
        match r {
            Some(k) => k as int == rfind_nn(c@, lo as int, hi as int),
            None => rfind_nn(c@, lo as int, hi as int) == -1,
        },
{
    let mut h = hi;
    while h - lo >= 2
        invariant
            lo <= h <= hi <= c.len(),
            rfind_nn(c@, lo as int, hi as int) == rfind_nn(c@, lo as int, h as int),
        decreases h,
    {
        if c[h - 2] == '\n' && c[h - 1] == '\n' {
            return Some(h - 2);
        }
        h = h - 1;
    }
    None
}

/// Index of the last `'\n'` inside `c[lo..hi]`.
fn rfind_newline(c: &Vec<char>, lo: usize, hi: usize) -> (r: Option<usize>)
    requires
        lo <= hi <= c.len(),
    ensures
        match r {
            Some(k) => k as int == rfind_nl(c@, lo as int, hi as int),
            None => rfind_nl(c@, lo as int, hi as int) == -1,
        },
{
    let mut h = hi;
    while h > lo
        invariant
            lo <= h <= hi <= c.len(),
            rfind_nl(c@, lo as int, hi as int) == rfind_nl(c@, lo as int, h as int),
        decreases h,
    {
        if c[h - 1] == '\n' {
            return Some(h - 1);
        }
        h = h - 1;
    }
    None
}

/// Find a good split point in the content starting at char `s`.
fn find_split_point(c: &Vec<char>, offs: &Vec<u128>, chunk_size: usize, s: usize) -> (e: usize)
    requires
        offs_ok(c@, offs@),
        s < c.len(),
    ensures
        e as int == split_point(c@, chunk_size as int, s as int),
        s <= e <= c.len(),
{
    proof {
        lemma_split_point(c@, chunk_size as int, s as int);
        lemma_off_bound(c@, s as int);
        lemma_off_bound(c@, c.len() as int);
        lemma_off_end(c@);
        lemma_byte_off_mono(c@, s as int, c.len() as int);
    }
    let n = c.len();
    let l = offs[n];
    let sum = offs[s] + chunk_size as u128;
    let ie = if sum <= l {
        sum
    } else {
        l
    };
    if ie == l {
        return n;
    }
    let extra: u128 = if 200 <= l - ie {
        200
    } else {
        l - ie
    };
    let se = align_index(c, offs, ie + extra);
    proof {
        lemma_align_idx_ge(c@, s as int, (ie + extra) as int);
    }
    match rfind_pair(c, s, se) {
        Some(k) => {
            proof {
                lemma_rfind_nn(c@, s as int, se as int);
            }
            k + 2
        },
        None => match rfind_newline(c, s, se) {
            Some(k2) => {
                proof {
                    lemma_rfind_nl(c@, s as int, se as int);
                }
                k2 + 1
            },
            None => align_index(c, offs, ie),
        },
    }
}

/// Metadata of the chunks of a section.
fn section_meta(section: &Section) -> (m: ChunkMetadata)
    ensures
        m@ == sec_meta(section.m()),
{
    let path = if section.path.len() == 0 {
        None
    } else {
        Some(to_strings(&section.path))
    };
    let t = "text".to_owned();
    let types = vec![t];
    assert(strings_view(types@) =~= seq!["text"@]);
    ChunkMetadata { level: Some(section.level), path, types: Some(types) }
}

/// Markdown splitter that splits by headers and sections.
pub struct MarkdownSplitter {
    config: SplitConfig,
}

impl MarkdownSplitter {
    /// The configuration in use.
    pub closed spec fn config_spec(&self) -> SplitConfig {
        self.config
    }

    /// Create a new markdown splitter with default configuration.
    pub fn new() -> (r: Self)
        ensures
            r.config_spec().chunk_size == 1500,
            r.config_spec().chunk_overlap == 200,
            r.config_spec().preserve_words,
    {
        MarkdownSplitter { config: SplitConfig::default() }
    }

    /// Create a markdown splitter with custom configuration.
    pub fn with_config(config: SplitConfig) -> (r: Self)
        ensures
            r.config_spec() == config,
    {
        MarkdownSplitter { config }
    }

    /// Split a section into chunks if it exceeds the chunk size.
    fn split_section(&self, section: &Section, sort_order: &mut i32) -> (r: Vec<TextChunk>)
        requires
            self.config.chunk_size > 0,
            0 <= section.level <= 6,
            section_chunks(section.m(), self.config, *old(sort_order) as int).1 <= i32::MAX,
        ensures
            (chunk_views(r@), *final(sort_order) as int) == section_chunks(
                section.m(),
                self.config,
                *old(sort_order) as int,
            ),
    {
        let ghost m = section.m();
        let ghost so0 = *sort_order as int;
        let (a, b) = trim_bounds(&section.content, 0, section.content.len());
        assert(section.content@.subrange(0, section.content.len() as int) =~= section.content@);
        let c = slice_chars(&section.content, a, b);
        let n = c.len();
        let mut chunks: Vec<TextChunk> = Vec::new();
        if n == 0 {
            assert(chunk_views(chunks@) =~= Seq::<ChunkView>::empty());
            return chunks;
        }
        let offs = byte_offsets(&c);
        let l = offs[n];
        proof {
            lemma_off_end(c@);
        }
        let cs = self.config.chunk_size;
        let ov = self.config.chunk_overlap;
        if l <= cs as u128 {
            let content = string_from_range(&c, 0, n);
            assert(c@.subrange(0, n as int) =~= c@);
            let chunk = TextChunk::new(content, section_meta(section), *sort_order);
            chunks.push(chunk);
            assert(chunk_views(chunks@) =~= seq![chunk@]);
            *sort_order = *sort_order + 1;
            return chunks;
        }
        let mut sb: u128 = 0;
        assert(chunk_views(chunks@) =~= Seq::<ChunkView>::empty());
        proof {
            lemma_off_bound(c@, n as int);
        }
        loop
            invariant_except_break
                0 <= sb < l,
                section_chunks(m, self.config, so0) == sec_loop(
                    c@,
                    m,
                    cs as int,
                    ov as int,
                    sb as int,
                    *sort_order as int,
                    chunk_views(chunks@),
                ),
            invariant
                offs_ok(c@, offs@),
                c@ == trim_seq(m.content),
                m == section.m(),
                n == c.len(),
                n > 0,
                l as int == byte_len(c@),
                l <= 4 * n,
                cs == self.config.chunk_size,
                ov == self.config.chunk_overlap,
                cs > 0,
                section_chunks(m, self.config, so0) == sec_loop(
                    c@,
                    m,
                    cs as int,
                    ov as int,
                    0,
                    so0,
                    Seq::empty(),
                ),
                section_chunks(m, self.config, so0).1 <= i32::MAX,
            ensures
                section_chunks(m, self.config, so0) == (chunk_views(chunks@), *sort_order as int),
            decreases l - sb,
        {
            let ghost so_cur = *sort_order as int;
            let ghost acc = chunk_views(chunks@);
            let s = align_index(&c, &offs, sb);
            if s >= n {
                break ;
            }
            let e = find_split_point(&c, &offs, cs, s);
            let (ta, tb) = trim_bounds(&c, s, e);
            let ghost ch = trim_seq(c@.subrange(s as int, e as int));
            let ghost acc2 = if ch.len() > 0 {
                acc.push(ChunkView { content: ch, meta: sec_meta(m), sort_order: so_cur })
            } else {
                acc
            };
            let ghost so2 = if ch.len() > 0 {
                so_cur + 1
            } else {
                so_cur
            };
            let sbb = offs[s];
            let eb = offs[e];
            let ns: u128 = if eb >= ov as u128 {
                eb - ov as u128
            } else {
                0
            };
            proof {
                lemma_align_idx_ge(c@, 0, sb as int);
                lemma_align_from(c@, 0, sb as int);
                lemma_off_bound(c@, s as int);
                lemma_byte_off_mono(c@, s as int, n as int);
                lemma_byte_off_mono(c@, s as int, e as int);
                let nsb_g = if ns <= sbb {
                    if eb > sbb {
                        eb as int
                    } else {
                        min_int(sbb + cs, l as int)
                    }
                } else {
                    ns as int
                };
                if nsb_g > sb && nsb_g < l {
                    lemma_sec_loop_mono(c@, m, cs as int, ov as int, nsb_g, so2, acc2);
                }
            }
            if ta < tb {
                let content = string_from_range(&c, ta, tb);
                let chunk = TextChunk::new(content, section_meta(section), *sort_order);
                chunks.push(chunk);
                assert(chunk_views(chunks@) =~= acc2);
                *sort_order = *sort_order + 1;
            }
            let nsb: u128 = if ns <= sbb {
                if eb > sbb {
                    eb
                } else if sbb + cs as u128 <= l {
                    sbb + cs as u128
                } else {
                    l
                }
            } else {
                ns
            };
            if nsb >= l {
                break ;
            }
            sb = nsb;
        }
        chunks
    }

    /// Split markdown text into chunks, respecting header structure.
    pub fn split(&self, markdown: &str) -> (r: Vec<TextChunk>)
        requires
            self.config_spec().chunk_size > 0,
            markdown_fits(markdown@, self.config_spec()),
        ensures
            chunk_views(r@) == markdown_chunks(markdown@, self.config_spec()),
    {
        let md = chars_of(markdown);
        let (a, b) = trim_bounds(&md, 0, md.len());
        assert(md@.subrange(0, md.len() as int) =~= md@);
        let mut chunks: Vec<TextChunk> = Vec::new();
        if a == b {
            assert(chunk_views(chunks@) =~= Seq::<ChunkView>::empty());
            return chunks;
        }
        let sections = parse_sections(&md);
        let ghost sv = secs_view(sections@);
        let mut so: i32 = 0;
        let mut i: usize = 0;
        assert(sv.take(0) =~= Seq::<SecM>::empty());
        assert(chunk_views(chunks@) =~= Seq::<ChunkView>::empty());
        proof {
            lemma_sections_chunks_prefix(sv, self.config);
        }
        while i < sections.len()
            invariant
                i <= sections.len(),
                sv == secs_view(sections@),
                levels_ok(sections@),
                sv == sections_of(md@),
                self.config.chunk_size > 0,
                sections_chunks(sv, self.config).1 <= i32::MAX,
                forall|k: int|
                    0 <= k <= sv.len() ==> #[trigger] sections_chunks(sv.take(k), self.config).1
                        <= sections_chunks(sv, self.config).1,
                (chunk_views(chunks@), so as int) == sections_chunks(sv.take(i as int), self.config),
            decreases sections.len() - i,
        {
            assert(sv.take(i + 1).drop_last() =~= sv.take(i as int));
            assert(sv.take(i + 1).last() == sections@[i as int].m());
            assert(sections_chunks(sv.take(i + 1), self.config).1 <= i32::MAX);
            let part = self.split_section(&sections[i], &mut so);
            let mut part = part;
            chunks.append(&mut part);
            i = i + 1;
        }
        assert(sv.take(sections.len() as int) =~= sv);
        chunks
    }
}

/// Align a byte index to the nearest char boundary: an index inside a char's
/// encoding moves forward to the next boundary; one at or past the end gives the end.
pub fn align_to_char_boundary(content: &str, index: usize) -> (r: usize)
    ensures
        index >= content.len() ==> r == content.len(),
        index < content.len() ==> {
            &&& index <= r <= content.len()
            &&& (r == content.len() || vstd::utf8::is_char_boundary(content.spec_bytes(), r as int))
            &&& forall|k: int|
                index <= k < r ==> !vstd::utf8::is_char_boundary(content.spec_bytes(), k)
        },
{
    let len = content.len();
    if index >= len {
        return len;
    }
    if content.is_char_boundary(index) {
        return index;
    }
    let mut new_index = index + 1;
    while new_index < len && !content.is_char_boundary(new_index)
        invariant
            index < new_index <= len,
            len == content.len(),
            forall|k: int|
                index <= k < new_index ==> !vstd::utf8::is_char_boundary(content.spec_bytes(), k),
        decreases len - new_index,
    {
        new_index = new_index + 1;
    }
    new_index
}

/// The sort order after a prefix of the sections never exceeds the one after all.
proof fn lemma_sections_chunks_prefix(secs: Seq<SecM>, cfg: SplitConfig)
    ensures
        forall|k: int|
            0 <= k <= secs.len() ==> #[trigger] sections_chunks(secs.take(k), cfg).1
                <= sections_chunks(secs, cfg).1,
    decreases secs.len(),
{
    if secs.len() > 0 {
        let d = secs.drop_last();
        lemma_sections_chunks_prefix(d, cfg);
        let (acc, so) = sections_chunks(d, cfg);
        lemma_section_chunks_mono(secs.last(), cfg, so);
        assert forall|k: int| 0 <= k <= secs.len() implies #[trigger] sections_chunks(
            secs.take(k),
            cfg,
        ).1 <= sections_chunks(secs, cfg).1 by {
            if k < secs.len() {
                assert(secs.take(k) =~= d.take(k));
            } else {
                assert(secs.take(k) =~= secs);
            }
        }
    }
}

proof fn lemma_section_chunks_mono(sec: SecM, cfg: SplitConfig, so: int)
    ensures
        section_chunks(sec, cfg, so).1 >= so,
{
    lemma_sec_loop_mono(
        trim_seq(sec.content),
        sec,
        cfg.chunk_size as int,
        cfg.chunk_overlap as int,
        0,
        so,
        Seq::empty(),
    );
}

impl Default for MarkdownSplitter {
    fn default() -> (r: Self)
        ensures
            r.config_spec().chunk_size == 1500,
            r.config_spec().chunk_overlap == 200,
            r.config_spec().preserve_words,
    {
        Self::new()
    }
}

proof fn lemma_sec_loop_tidy(
    c: Seq<char>,
    sec: SecM,
    cs: int,
    ov: int,
    sb: int,
    so: int,
    acc: Seq<ChunkView>,
)
    requires
        tidy_chunks(acc),
    ensures
        tidy_chunks(sec_loop(c, sec, cs, ov, sb, so, acc).0),
    decreases byte_len(c) - sb,
{
    let l = byte_len(c) as int;
    let s = align_idx(c, sb);
    if !(sb >= l || s >= c.len()) {
        let e = split_point(c, cs, s);
        let raw = c.subrange(s, e);
        let ch = trim_seq(raw);
        lemma_trim_idem(raw);
        let acc2 = if ch.len() > 0 {
            acc.push(ChunkView { content: ch, meta: sec_meta(sec), sort_order: so })
        } else {
            acc
        };
        let so2 = if ch.len() > 0 {
            so + 1
        } else {
            so
        };
        assert(tidy_chunks(acc2)) by {
            assert forall|i: int| 0 <= i < acc2.len() implies #[trigger] acc2[i].content.len() > 0 && is_trimmed(acc2[i].content) by {
                if i < acc.len() {
                    assert(acc2[i] == acc[i]);
                }
            }
        }
        let sbb = byte_off(c, s) as int;
        let eb = byte_off(c, e) as int;
        let ns = if eb >= ov {
            eb - ov
        } else {
            0
        };
        let nsb = if ns <= sbb {
            if eb > sbb {
                eb
            } else {
                min_int(sbb + cs, l)
            }
        } else {
            ns
        };
        if nsb > sb && nsb < l {
            lemma_sec_loop_tidy(c, sec, cs, ov, nsb, so2, acc2);
        }
    }
}

proof fn lemma_sections_tidy(secs: Seq<SecM>, cfg: SplitConfig)
    ensures
        tidy_chunks(sections_chunks(secs, cfg).0),
    decreases secs.len(),
{
    if secs.len() > 0 {
        lemma_sections_tidy(secs.drop_last(), cfg);
        let (acc, so) = sections_chunks(secs.drop_last(), cfg);
        let sec = secs.last();
        let c = trim_seq(sec.content);
        lemma_trim_idem(sec.content);
        if c.len() > 0 && byte_len(c) > cfg.chunk_size {
            lemma_sec_loop_tidy(c, sec, cfg.chunk_size as int, cfg.chunk_overlap as int, 0, so, Seq::empty());
        }
        let (more, so2) = section_chunks(sec, cfg, so);
        let all = acc + more;
        assert forall|i: int| 0 <= i < all.len() implies #[trigger] all[i].content.len() > 0 && is_trimmed(all[i].content) by {
            if i < acc.len() {
                assert(all[i] == acc[i]);
            } else {
                assert(all[i] == more[i - acc.len()]);
            }
        }
    }
}

/// Every chunk that `MarkdownSplitter::split` yields holds text with no
/// whitespace at either end.
pub proof fn law_markdown_chunks_tidy(md: Seq<char>, cfg: SplitConfig)
    ensures
        tidy_chunks(markdown_chunks(md, cfg)),
{
    if trim_seq(md).len() > 0 {
        lemma_sections_tidy(sections_of(md), cfg);
    }
}

/// The chunks `cs` are numbered `base`, `base + 1`, ... in order.
pub open spec fn numbered_from(cs: Seq<ChunkView>, base: int) -> bool {
    forall|i: int| 0 <= i < cs.len() ==> #[trigger] cs[i].sort_order == base + i
}

proof fn lemma_sec_loop_numbered(
    c: Seq<char>,
    sec: SecM,
    cs: int,
    ov: int,
    sb: int,
    so: int,
    acc: Seq<ChunkView>,
    base: int,
)
    requires
        numbered_from(acc, base),
        so == base + acc.len(),
    ensures
        numbered_from(sec_loop(c, sec, cs, ov, sb, so, acc).0, base),
        sec_loop(c, sec, cs, ov, sb, so, acc).1 == base + sec_loop(c, sec, cs, ov, sb, so, acc).0.len(),
    decreases byte_len(c) - sb,
{
    let l = byte_len(c) as int;
    let s = align_idx(c, sb);
    if sb >= l || s >= c.len() {
    } else {
        let e = split_point(c, cs, s);
        let ch = trim_seq(c.subrange(s, e));
        let acc2 = if ch.len() > 0 {
            acc.push(ChunkView { content: ch, meta: sec_meta(sec), sort_order: so })
        } else {
            acc
        };
        let so2 = if ch.len() > 0 {
            so + 1
        } else {
            so
        };
        assert(numbered_from(acc2, base)) by {
            assert forall|i: int| 0 <= i < acc2.len() implies #[trigger] acc2[i].sort_order == base + i by {
                if i < acc.len() {
                    assert(acc2[i] == acc[i]);
                }
            }
        }
        let sbb = byte_off(c, s) as int;
        let eb = byte_off(c, e) as int;
        let ns = if eb >= ov {
            eb - ov
        } else {
            0
        };
        let nsb = if ns <= sbb {
            if eb > sbb {
                eb
            } else {
                min_int(sbb + cs, l)
            }
        } else {
            ns
        };
        if nsb > sb && nsb < l {
            lemma_sec_loop_numbered(c, sec, cs, ov, nsb, so2, acc2, base);
        }
    }
}

proof fn lemma_sections_numbered(secs: Seq<SecM>, cfg: SplitConfig)
    ensures
        numbered_from(sections_chunks(secs, cfg).0, 0),
        sections_chunks(secs, cfg).1 == sections_chunks(secs, cfg).0.len(),
    decreases secs.len(),
{
    if secs.len() > 0 {
        lemma_sections_numbered(secs.drop_last(), cfg);
        let (acc, so) = sections_chunks(secs.drop_last(), cfg);
        let sec = secs.last();
        let c = trim_seq(sec.content);
        if c.len() > 0 && byte_len(c) > cfg.chunk_size {
            lemma_sec_loop_numbered(
                c,
                sec,
                cfg.chunk_size as int,
                cfg.chunk_overlap as int,
                0,
                so,
                Seq::empty(),
                so,
            );
        }
        let (more, so2) = section_chunks(sec, cfg, so);
        assert(numbered_from(more, so));
        let all = acc + more;
        assert forall|i: int| 0 <= i < all.len() implies #[trigger] all[i].sort_order == i by {
            if i < acc.len() {
                assert(all[i] == acc[i]);
            } else {
                assert(all[i] == more[i - acc.len()]);
            }
        }
    }
}

/// The chunks that `MarkdownSplitter::split` yields are numbered 0, 1, 2, ...
/// in order: each takes its place within the document.
pub proof fn law_markdown_chunks_numbered(md: Seq<char>, cfg: SplitConfig)
    ensures
        numbered_in_order(markdown_chunks(md, cfg)),
{
    if trim_seq(md).len() > 0 {
        lemma_sections_numbered(sections_of(md), cfg);
    }
}

/// The occurrences of `ch` in the chunks `cs`.
pub open spec fn chunks_count(cs: Seq<ChunkView>, ch: char) -> int
    decreases cs.len(),
{
    if cs.len() == 0 {
        0
    } else {
        chunks_count(cs.drop_last(), ch) + count_char(cs.last().content, ch)
    }
}

pub(crate) proof fn lemma_chunks_count_push(cs: Seq<ChunkView>, x: ChunkView, ch: char)
    ensures
        chunks_count(cs.push(x), ch) == chunks_count(cs, ch) + count_char(x.content, ch),
{
    assert(cs.push(x).drop_last() =~= cs);
}

proof fn lemma_chunks_count_add(a: Seq<ChunkView>, b: Seq<ChunkView>, ch: char)
    ensures
        chunks_count(a + b, ch) == chunks_count(a, ch) + chunks_count(b, ch),
    decreases b.len(),
{
    if b.len() == 0 {
        assert(a + b =~= a);
    } else {
        assert((a + b).drop_last() =~= a + b.drop_last());
        lemma_chunks_count_add(a, b.drop_last(), ch);
    }
}

proof fn lemma_split_point_advances(c: Seq<char>, cs: int, s: int)
    requires
        cs > 0,
        0 <= s < c.len(),
    ensures
        s < split_point(c, cs, s) <= c.len(),
{
    lemma_split_point(c, cs, s);
    let l = byte_len(c) as int;
    lemma_off_end(c);
    lemma_byte_off_mono(c, s, c.len() as int);
    let ie = min_int(byte_off(c, s) + cs, l);
    if ie != l {
        let se = align_idx(c, ie + min_int(200, l - ie));
        lemma_rfind_nn(c, s, se);
        lemma_rfind_nl(c, s, se);
        let a = align_idx(c, ie);
        crate::splitter::text_splitter::lemma_align_range(c, 0, ie);
        if a <= s {
            lemma_byte_off_mono(c, a, s);
        }
    }
}

pub(crate) proof fn lemma_align_le(c: Seq<char>, b: int, e: int)
    requires
        0 <= e <= c.len(),
        byte_off(c, e) >= b,
    ensures
        align_idx(c, b) <= e,
{
    crate::splitter::text_splitter::lemma_align_range(c, 0, b);
}

pub(crate) proof fn lemma_align_end(c: Seq<char>, b: int)
    requires
        b >= byte_len(c),
    ensures
        align_idx(c, b) == c.len(),
{
    crate::splitter::text_splitter::lemma_align_range(c, 0, b);
    lemma_off_end(c);
    let a = align_idx(c, b);
    if a < c.len() {
        lemma_byte_off_mono(c, a, c.len() as int);
    }
}

proof fn lemma_sec_loop_cover(
    c: Seq<char>,
    sec: SecM,
    cs: int,
    ov: int,
    sb: int,
    so: int,
    acc: Seq<ChunkView>,
    ch: char,
)
    requires
        cs > 0,
        ov >= 0,
        sb >= 0,
        !is_ws(ch),
    ensures
        chunks_count(sec_loop(c, sec, cs, ov, sb, so, acc).0, ch) >= chunks_count(acc, ch) + count_char(
            c.subrange(align_idx(c, sb), c.len() as int),
            ch,
        ),
    decreases byte_len(c) - sb,
{
    let l = byte_len(c) as int;
    let s = align_idx(c, sb);
    crate::splitter::text_splitter::lemma_align_range(c, 0, sb);
    lemma_off_end(c);
    if sb >= l || s >= c.len() {
        if sb >= l {
            lemma_align_end(c, sb);
        }
        assert(c.subrange(s, c.len() as int) =~= Seq::<char>::empty());
    } else {
        let e = split_point(c, cs, s);
        lemma_split_point_advances(c, cs, s);
        let piece = trim_seq(c.subrange(s, e));
        lemma_count_char_trim(c.subrange(s, e), ch);
        let acc2 = if piece.len() > 0 {
            acc.push(ChunkView { content: piece, meta: sec_meta(sec), sort_order: so })
        } else {
            acc
        };
        let so2 = if piece.len() > 0 {
            so + 1
        } else {
            so
        };
        if piece.len() > 0 {
            lemma_chunks_count_push(acc, ChunkView { content: piece, meta: sec_meta(sec), sort_order: so }, ch);
        } else {
            lemma_count_char_none(piece, ch);
        }
        assert(chunks_count(acc2, ch) == chunks_count(acc, ch) + count_char(c.subrange(s, e), ch));
        let sbb = byte_off(c, s) as int;
        let eb = byte_off(c, e) as int;
        lemma_byte_off_mono(c, s, e);
        lemma_byte_off_mono(c, e, c.len() as int);
        let ns = if eb >= ov {
            eb - ov
        } else {
            0
        };
        let nsb = if ns <= sbb {
            if eb > sbb {
                eb
            } else {
                min_int(sbb + cs, l)
            }
        } else {
            ns
        };
        assert(sbb < nsb <= eb);
        let rest = c.subrange(s, c.len() as int);
        assert(rest =~= c.subrange(s, e) + c.subrange(e, c.len() as int));
        lemma_count_char_add(c.subrange(s, e), c.subrange(e, c.len() as int), ch);
        if nsb > sb && nsb < l {
            lemma_sec_loop_cover(c, sec, cs, ov, nsb, so2, acc2, ch);
            let s2 = align_idx(c, nsb);
            lemma_align_le(c, nsb, e);
            crate::splitter::text_splitter::lemma_align_range(c, 0, nsb);
            let t = c.subrange(s2, c.len() as int);
            lemma_count_char_suffix(t, e - s2, ch);
            assert(t.subrange(e - s2, t.len() as int) =~= c.subrange(e, c.len() as int));
        } else {
            assert(eb == l);
            if e < c.len() {
                lemma_byte_off_mono(c, e, c.len() as int);
            }
            assert(c.subrange(e, c.len() as int) =~= Seq::<char>::empty());
        }
    }
}

/// Splitting a section loses no text: every char that is not whitespace occurs
/// in the section's chunks at least as often as in its content.
pub proof fn law_section_chunks_cover(sec: SecM, cfg: SplitConfig, so: int, ch: char)
    requires
        cfg.chunk_size > 0,
        !is_ws(ch),
    ensures
        chunks_count(section_chunks(sec, cfg, so).0, ch) >= count_char(sec.content, ch),
{
    let c = trim_seq(sec.content);
    lemma_count_char_trim(sec.content, ch);
    if c.len() == 0 {
        lemma_count_char_none(c, ch);
    } else if byte_len(c) <= cfg.chunk_size {
        let x = ChunkView { content: c, meta: sec_meta(sec), sort_order: so };
        lemma_chunks_count_push(Seq::empty(), x, ch);
        assert(Seq::<ChunkView>::empty().push(x) =~= seq![x]);
    } else {
        lemma_sec_loop_cover(c, sec, cfg.chunk_size as int, cfg.chunk_overlap as int, 0, so, Seq::empty(), ch);
        assert(c.take(0) =~= Seq::<char>::empty());
        assert(byte_off(c, 0) == 0);
        assert(align_idx(c, 0) == 0);
        assert(c.subrange(0, c.len() as int) =~= c);
    }
}

/// The occurrences of `ch` in the contents of the sections `secs`.
pub open spec fn sections_count(secs: Seq<SecM>, ch: char) -> int
    decreases secs.len(),
{
    if secs.len() == 0 {
        0
    } else {
        sections_count(secs.drop_last(), ch) + count_char(secs.last().content, ch)
    }
}

proof fn lemma_sections_cover(secs: Seq<SecM>, cfg: SplitConfig, ch: char)
    requires
        cfg.chunk_size > 0,
        !is_ws(ch),
    ensures
        chunks_count(sections_chunks(secs, cfg).0, ch) >= sections_count(secs, ch),
    decreases secs.len(),
{
    if secs.len() > 0 {
        lemma_sections_cover(secs.drop_last(), cfg, ch);
        let (acc, so) = sections_chunks(secs.drop_last(), cfg);
        law_section_chunks_cover(secs.last(), cfg, so, ch);
        lemma_chunks_count_add(acc, section_chunks(secs.last(), cfg, so).0, ch);
    }
}

/// Splitting markdown loses no text of its sections: every char that is not
/// whitespace occurs in the chunks at least as often as in the sections'
/// contents together.
pub proof fn law_markdown_chunks_cover(md: Seq<char>, cfg: SplitConfig, ch: char)
    requires
        cfg.chunk_size > 0,
        !is_ws(ch),
        trim_seq(md).len() > 0,
    ensures
        chunks_count(markdown_chunks(md, cfg), ch) >= sections_count(sections_of(md), ch),
{
    lemma_sections_cover(sections_of(md), cfg, ch);
}

/// The breadcrumb names each parent by the latest header of its level: after a
/// section of level `k` below `lvl`, entry `k - 1` is that section's title and
/// every other entry is what it was; a section at `lvl` or deeper (or of level
/// 0) changes nothing.
pub proof fn law_path_latest_parent(secs: Seq<SecM>, s: SecM, lvl: int)
    requires
        lvl >= 0,
    ensures
        path_fold(secs.push(s), lvl).len() == lvl,
        0 < s.level < lvl ==> path_fold(secs.push(s), lvl)[s.level - 1] == s.title,
        forall|k: int|
            0 <= k < lvl && k != s.level - 1 ==> #[trigger] path_fold(secs.push(s), lvl)[k] == path_fold(
                secs,
                lvl,
            )[k],
        !(0 < s.level < lvl) ==> path_fold(secs.push(s), lvl) == path_fold(secs, lvl),
{
    lemma_path_fold_len(secs, lvl);
    lemma_path_fold_len(secs.push(s), lvl);
    assert(secs.push(s).drop_last() =~= secs);
    assert(secs.push(s).last() == s);
}

} // verus!
