//! Basic text splitter.
use vstd::prelude::*;

use crate::splitter::markdown_splitter::{
    align_from, align_idx, min_int, chunks_count, lemma_chunks_count_push, lemma_align_le, lemma_align_end,
    lemma_off_end,
};
use crate::splitter::{chunk_views, numbered_in_order, tidy_chunks, ChunkView, SplitConfig, TextChunk};
use crate::text::{
    append_all, byte_count, byte_len, byte_off, byte_offsets, chars_of, contains,
    contains_seq, is_whitespace, is_ws, lemma_byte_len_le_len, lemma_byte_off_mono,
    matches_at, occurs_at, slice_chars, string_from_chars, string_from_range, trim_bounds,
    trim_chars, trim_seq, vviews, is_trimmed, lemma_trim_idem, lemma_trim_bounds, count_char,
    lemma_count_char_add, lemma_count_char_suffix, lemma_count_char_trim, lemma_count_char_none,
};
use crate::types::{ChunkMetadata, MetaView};

verus! {

broadcast use vstd::string::group_string_axioms;

/// Whether byte position `p` of `t` lies on a char boundary.
pub open spec fn on_boundary(t: Seq<char>, p: int) -> bool {
    exists|j: int| 0 <= j <= t.len() && byte_off(t, j) == p
}

/// Index of the first whitespace char of `t[j..b]`, or `b`.
pub open spec fn first_ws(t: Seq<char>, j: int, b: int) -> int
    decreases b - j,
{
    if j >= b {
        b
    } else if is_ws(t[j]) {
        j
    } else {
        first_ws(t, j + 1, b)
    }
}

/// Byte position where the chunk of `t` that starts at byte `sb` ends: `chunk_size`
/// bytes on, moved forward to the next whitespace within 100 bytes when words are
/// preserved; `None` where slicing the search window would cut a char.
pub open spec fn chunk_end(t: Seq<char>, cfg: SplitConfig, sb: int) -> Option<int> {
    let l = byte_len(t) as int;
    let ie = sb + cfg.chunk_size;
    if ie >= l {
        Some(l)
    } else if cfg.preserve_words {
        let ss = if ie >= 100 {
            ie - 100
        } else {
            0
        };
        let se = ie + min_int(100, l - ie);
        if !on_boundary(t, ss) || !on_boundary(t, se) {
            None
        } else {
            let b = align_idx(t, se);
            let j = first_ws(t, align_idx(t, ie), b);
            if j < b {
                Some(byte_off(t, j) as int)
            } else {
                Some(ie)
            }
        }
    } else {
        Some(ie)
    }
}

/// The chunks of the trimmed text `t` from byte `sb` on, appended to `acc`, with the
/// next sort order; `None` where the text would be sliced inside a char.
pub open spec fn text_loop(
    t: Seq<char>,
    cfg: SplitConfig,
    sb: int,
    so: int,
    acc: Seq<ChunkView>,
) -> Option<(Seq<ChunkView>, int)>
    decreases byte_len(t) - sb,
{
    let l = byte_len(t) as int;
    if sb >= l {
        Some((acc, so))
    } else {
        match chunk_end(t, cfg, sb) {
            None => None,
            Some(eb) => {
                if !on_boundary(t, sb) || !on_boundary(t, eb) || eb < sb {
                    None
                } else {
                    let ch = trim_seq(t.subrange(align_idx(t, sb), align_idx(t, eb)));
                    let acc2 = if ch.len() > 0 {
                        acc.push(ChunkView { content: ch, meta: plain_meta(), sort_order: so })
                    } else {
                        acc
                    };
                    let so2 = if ch.len() > 0 {
                        so + 1
                    } else {
                        so
                    };
                    let ns = if eb >= l {
                        l
                    } else if eb >= cfg.chunk_overlap {
                        eb - cfg.chunk_overlap
                    } else {
                        0
                    };
                    let nsb = if ns <= sb {
                        eb
                    } else {
                        ns
                    };
                    if nsb > sb {
                        text_loop(t, cfg, nsb, so2, acc2)
                    } else {
                        Some((acc2, so2))
                    }
                }
            },
        }
    }
}

proof fn lemma_text_loop_count(t: Seq<char>, cfg: SplitConfig, sb: int, so: int, acc: Seq<ChunkView>)
    ensures
        text_loop(t, cfg, sb, so, acc) matches Some((_, n)) ==> n <= so + (if byte_len(t) > sb {
            byte_len(t) - sb
        } else {
            0
        }),
    decreases byte_len(t) - sb,
{
    let l = byte_len(t) as int;
    if sb < l {
        if let Some(eb) = chunk_end(t, cfg, sb) {
            if on_boundary(t, sb) && on_boundary(t, eb) && eb >= sb {
                let ch = trim_seq(t.subrange(align_idx(t, sb), align_idx(t, eb)));
                let acc2 = if ch.len() > 0 {
                    acc.push(ChunkView { content: ch, meta: plain_meta(), sort_order: so })
                } else {
                    acc
                };
                let so2 = if ch.len() > 0 {
                    so + 1
                } else {
                    so
                };
                let ns = if eb >= l {
                    l
                } else if eb >= cfg.chunk_overlap {
                    eb - cfg.chunk_overlap
                } else {
                    0
                };
                let nsb = if ns <= sb {
                    eb
                } else {
                    ns
                };
                if nsb > sb {
                    lemma_text_loop_count(t, cfg, nsb, so2, acc2);
                }
            }
        }
    }
}

/// `TextSplitter::split` hands out sort orders no larger than the number of
/// bytes of the trimmed text; so text of fewer than 536,870,912 chars that it
/// can split without cutting a char meets the count part of its `requires`.
pub proof fn law_text_split_count(text: Seq<char>, cfg: SplitConfig)
    ensures
        text_split_spec(text, cfg) matches Some((_, n)) ==> n <= 4 * text.len(),
{
    let t = trim_seq(text);
    if t.len() > 0 {
        lemma_text_loop_count(t, cfg, 0, 0, Seq::empty());
        lemma_trim_bounds(text);
        lemma_byte_len_le_len(t);
    }
}

/// Metadata with no level, path or types.
pub open spec fn plain_meta() -> MetaView {
    MetaView { level: None, path: None, types: None }
}

/// What `TextSplitter::split` yields for `text`: the trimmed text cut into chunks
/// of `chunk_size` bytes (ended at whitespace when words are preserved) that overlap
/// by `chunk_overlap` bytes, each trimmed, empty ones dropped; `None` where the
/// text would be sliced inside a char.
pub open spec fn text_split_spec(text: Seq<char>, cfg: SplitConfig) -> Option<(Seq<ChunkView>, int)> {
    let t = trim_seq(text);
    if t.len() == 0 {
        Some((Seq::empty(), 0))
    } else {
        text_loop(t, cfg, 0, 0, Seq::empty())
    }
}

/// Whether `TextSplitter::split` runs to its end on `text`: it stops, cuts no char
/// and hands out sort orders that fit in an `i32`.
pub open spec fn text_split_ok(text: Seq<char>, cfg: SplitConfig) -> bool {
    &&& (cfg.chunk_size > 0 || trim_seq(text).len() == 0)
    &&& text_split_spec(text, cfg) is Some
    &&& text_split_spec(text, cfg).unwrap().1 <= i32::MAX
}

spec fn offs_ok(c: Seq<char>, offs: Seq<u128>) -> bool {
    &&& offs.len() == c.len() + 1
    &&& forall|i: int| 0 <= i <= c.len() ==> offs[i] == byte_off(c, i)
}

proof fn lemma_off_facts(t: Seq<char>)
    ensures
        byte_off(t, t.len() as int) == byte_len(t),
        byte_len(t) <= 4 * t.len(),
        forall|i: int, j: int| 0 <= i < j <= t.len() ==> byte_off(t, i) < byte_off(t, j),
{
    assert(t.take(t.len() as int) =~= t);
    lemma_byte_off_mono(t, 0, t.len() as int);
    assert(t.take(0) =~= Seq::<char>::empty());
    assert forall|i: int, j: int| 0 <= i < j <= t.len() implies byte_off(t, i) < byte_off(t, j) by {
        lemma_byte_off_mono(t, i, j);
    }
}

pub proof fn lemma_align_range(t: Seq<char>, j: int, b: int)
    requires
        0 <= j <= t.len(),
    ensures
        j <= align_from(t, j, b) <= t.len(),
        align_from(t, j, b) < t.len() ==> byte_off(t, align_from(t, j, b)) >= b,
        forall|k: int| j <= k < align_from(t, j, b) ==> byte_off(t, k) < b,
    decreases t.len() - j,
{
    if j < t.len() && byte_off(t, j) < b {
        lemma_align_range(t, j + 1, b);
    }
}

proof fn lemma_first_ws(t: Seq<char>, j: int, b: int)
    requires
        j <= b,
    ensures
        j <= first_ws(t, j, b) <= b,
    decreases b - j,
{
    if j < b && !is_ws(t[j]) {
        lemma_first_ws(t, j + 1, b);
    }
}

proof fn lemma_chunk_end_gt(t: Seq<char>, cfg: SplitConfig, sb: int)
    requires
        cfg.chunk_size > 0,
        0 <= sb < byte_len(t),
    ensures
        chunk_end(t, cfg, sb) matches Some(x) ==> sb < x <= byte_len(t),
{
    let l = byte_len(t) as int;
    let ie = sb + cfg.chunk_size;
    lemma_off_facts(t);
    if ie < l && cfg.preserve_words {
        let se = ie + min_int(100, l - ie);
        let b = align_idx(t, se);
        lemma_align_range(t, 0, ie);
        lemma_align_range(t, 0, se);
        lemma_first_ws(t, align_idx(t, ie), b);
        let j = first_ws(t, align_idx(t, ie), b);
        if j < b && b <= t.len() && align_idx(t, ie) <= j {
            lemma_byte_off_mono(t, align_idx(t, ie), j);
            lemma_byte_off_mono(t, j, t.len() as int);
        }
    }
}

/// Char index at byte `p` when `p` lies on a char boundary.
fn boundary_index(t: &Vec<char>, offs: &Vec<u128>, p: u128) -> (r: Option<usize>)
    requires
        offs_ok(t@, offs@),
    ensures
        r is Some <==> on_boundary(t@, p as int),
        r matches Some(j) ==> j <= t.len() && byte_off(t@, j as int) == p && align_idx(t@, p as int) == j,
{
    proof {
        lemma_off_facts(t@);
        lemma_align_range(t@, 0, p as int);
    }
    let mut j: usize = 0;
    while j < t.len() && offs[j] < p
        invariant
            j <= t.len(),
            offs_ok(t@, offs@),
            align_idx(t@, p as int) == align_from(t@, j as int, p as int),
        decreases t.len() - j,
    {
        j = j + 1;
    }
    if offs[j] == p {
        Some(j)
    } else {
        assert forall|k: int| 0 <= k <= t.len() implies byte_off(t@, k) != p by {
            if k < j {
            } else if k > j {
                assert(byte_off(t@, j as int) < byte_off(t@, k));
            }
        }
        None
    }
}

/// Basic text splitter.
pub struct TextSplitter {
    config: SplitConfig,
}

impl TextSplitter {
    /// The configuration in use.
    pub closed spec fn config_spec(&self) -> SplitConfig {
        self.config
    }

    /// Create a new text splitter with default configuration.
    pub fn new() -> (r: Self)
        ensures
            r.config_spec().chunk_size == 1500,
            r.config_spec().chunk_overlap == 200,
            r.config_spec().preserve_words,
    {
        TextSplitter { config: SplitConfig::default() }
    }

    /// Create a text splitter with custom configuration.
    pub fn with_config(config: SplitConfig) -> (r: Self)
        ensures
            r.config_spec() == config,
    {
        TextSplitter { config }
    }

    /// Get the configuration.
    pub fn config(&self) -> (r: &SplitConfig)
        ensures
            *r == self.config_spec(),
    {
        &self.config
    }

    /// Find the end position (byte) of a chunk starting at byte `sb`.
    fn find_chunk_end(&self, t: &Vec<char>, offs: &Vec<u128>, sb: u128) -> (r: Option<u128>)
        requires
            offs_ok(t@, offs@),
            sb < offs[t.len() as int],
        ensures
            r is Some <==> chunk_end(t@, self.config, sb as int) is Some,
            r matches Some(x) ==> x as int == chunk_end(t@, self.config, sb as int).unwrap() && x
                <= offs[t.len() as int],
    {
        proof {
            lemma_off_facts(t@);
        }
        let l = offs[t.len()];
        let cs = self.config.chunk_size as u128;
        let ie = sb + cs;
        if ie >= l {
            return Some(l);
        }
        if self.config.preserve_words {
            let ss: u128 = if ie >= 100 {
                ie - 100
            } else {
                0
            };
            let extra: u128 = if 100 <= l - ie {
                100
            } else {
                l - ie
            };
            let se = ie + extra;
            let a = boundary_index(t, offs, ss);
            let b = boundary_index(t, offs, se);
            match (a, b) {
                (Some(a), Some(b)) => {
                    let mut j: usize = 0;
                    while j < t.len() && offs[j] < ie
                        invariant
                            j <= t.len(),
                            offs_ok(t@, offs@),
                            align_idx(t@, ie as int) == align_from(t@, j as int, ie as int),
                        decreases t.len() - j,
                    {
                        j = j + 1;
                    }
                    proof {
                        lemma_align_range(t@, 0, ie as int);
                        lemma_align_range(t@, 0, se as int);
                        if j > b {
                            assert(byte_off(t@, b as int) < ie);
                        }
                        assert(j <= b);
                    }
                    while j < b && !is_whitespace(t[j])
                        invariant
                            j <= b <= t.len(),
                            first_ws(t@, align_idx(t@, ie as int), b as int) == first_ws(
                                t@,
                                j as int,
                                b as int,
                            ),
                        decreases b - j,
                    {
                        j = j + 1;
                    }
                    if j < b {
                        proof {
                            lemma_byte_off_mono(t@, j as int, t.len() as int);
                        }
                        return Some(offs[j]);
                    }
                    return Some(ie);
                },
                _ => {
                    return None;
                },
            }
        }
        Some(ie)
    }

    /// Split text into chunks.
    pub fn split(&self, text: &str) -> (r: Vec<TextChunk>)
        requires
            text_split_ok(text@, self.config_spec()),
        ensures
            chunk_views(r@) == text_split_spec(text@, self.config_spec()).unwrap().0,
    {
        let all = chars_of(text);
        let (a, b) = trim_bounds(&all, 0, all.len());
        assert(all@.subrange(0, all.len() as int) =~= all@);
        let t = crate::text::slice_chars(&all, a, b);
        let mut chunks: Vec<TextChunk> = Vec::new();
        assert(chunk_views(chunks@) =~= Seq::<ChunkView>::empty());
        if t.len() == 0 {
            return chunks;
        }
        let offs = byte_offsets(&t);
        let l = offs[t.len()];
        proof {
            lemma_off_facts(t@);
        }
        let ghost cfg = self.config;
        let ghost total = text_split_spec(text@, cfg);
        let mut sb: u128 = 0;
        let mut so: i32 = 0;
        while sb < l
            invariant
                offs_ok(t@, offs@),
                t@ == trim_seq(text@),
                t.len() > 0,
                l == offs[t.len() as int],
                l as int == byte_len(t@),
                cfg == self.config,
                text_split_ok(text@, cfg),
                total == text_split_spec(text@, cfg),
                total == text_loop(t@, cfg, sb as int, so as int, chunk_views(chunks@)),
                sb <= l,
            decreases l - sb,
        {
            let ghost acc = chunk_views(chunks@);
            proof {
                lemma_chunk_end_gt(t@, cfg, sb as int);
            }
            let eb = match self.find_chunk_end(&t, &offs, sb) {
                Some(x) => x,
                None => {
                    assert(false);
                    0
                },
            };
            let si = boundary_index(&t, &offs, sb);
            let ei = boundary_index(&t, &offs, eb);
            let (s, e) = match (si, ei) {
                (Some(s), Some(e)) => (s, e),
                _ => {
                    assert(false);
                    (0, 0)
                },
            };
            if e < s {
                proof {
                    lemma_byte_off_mono(t@, e as int, s as int);
                }
                assert(false);
            }
            let (ta, tb) = trim_bounds(&t, s, e);
            let ghost ch = trim_seq(t@.subrange(s as int, e as int));
            let ghost so2 = if ch.len() > 0 {
                so + 1
            } else {
                so as int
            };
            let ghost acc2 = if ch.len() > 0 {
                acc.push(ChunkView { content: ch, meta: plain_meta(), sort_order: so as int })
            } else {
                acc
            };
            let ns: u128 = if eb >= l {
                l
            } else if eb >= self.config.chunk_overlap as u128 {
                eb - self.config.chunk_overlap as u128
            } else {
                0
            };
            let nsb = if ns <= sb {
                eb
            } else {
                ns
            };
            proof {
                if e > s {
                    lemma_byte_off_mono(t@, s as int, e as int);
                }
                if nsb > sb {
                    lemma_text_loop_mono(t@, cfg, nsb as int, so2, acc2);
                }
                assert(eb > sb);
            }
            if ta < tb {
                let content = string_from_range(&t, ta, tb);
                let chunk = TextChunk::new(content, ChunkMetadata::default(), so);
                chunks.push(chunk);
                assert(chunk_views(chunks@) =~= acc2);
                so = so + 1;
            }
            sb = nsb;
        }
        chunks
    }
}

proof fn lemma_text_loop_mono(t: Seq<char>, cfg: SplitConfig, sb: int, so: int, acc: Seq<ChunkView>)
    ensures
        text_loop(t, cfg, sb, so, acc) matches Some(x) ==> x.1 >= so,
    decreases byte_len(t) - sb,
{
    let l = byte_len(t) as int;
    if sb < l {
        match chunk_end(t, cfg, sb) {
            None => {},
            Some(eb) => {
                if on_boundary(t, sb) && on_boundary(t, eb) && eb >= sb {
                    let ch = trim_seq(t.subrange(align_idx(t, sb), align_idx(t, eb)));
                    let acc2 = if ch.len() > 0 {
                        acc.push(ChunkView { content: ch, meta: plain_meta(), sort_order: so })
                    } else {
                        acc
                    };
                    let so2 = if ch.len() > 0 {
                        so + 1
                    } else {
                        so
                    };
                    let ns = if eb >= l {
                        l
                    } else if eb >= cfg.chunk_overlap {
                        eb - cfg.chunk_overlap
                    } else {
                        0
                    };
                    let nsb = if ns <= sb {
                        eb
                    } else {
                        ns
                    };
                    if nsb > sb {
                        lemma_text_loop_mono(t, cfg, nsb, so2, acc2);
                    }
                }
            },
        }
    }
}

// ---------------------------------------------------------------------------
// Splitting by separators
// ---------------------------------------------------------------------------

/// Index of the leftmost occurrence of `p` in `s` at or after `i`, or -1.
pub open spec fn find_first(s: Seq<char>, p: Seq<char>, i: int) -> int
    decreases s.len() + 1 - i,
{
    if i < 0 || i + p.len() > s.len() {
        -1
    } else if occurs_at(s, p, i) {
        i
    } else {
        find_first(s, p, i + 1)
    }
}

/// The pieces of `s[i..]` between the occurrences of the non-empty pattern `p`.
pub open spec fn split_from(s: Seq<char>, p: Seq<char>, i: int) -> Seq<Seq<char>>
    decreases s.len() + 1 - i,
{
    if p.len() == 0 || i < 0 || i > s.len() {
        Seq::empty()
    } else {
        let k = find_first(s, p, i);
        proof {
            lemma_find_first(s, p, i);
        }
        if k < i {
            seq![s.subrange(i, s.len() as int)]
        } else {
            seq![s.subrange(i, k)] + split_from(s, p, k + p.len())
        }
    }
}

/// The pieces of `s` between the occurrences of `p`, as `str::split` yields them
/// (an empty pattern matches before and after every char).
pub open spec fn str_split(s: Seq<char>, p: Seq<char>) -> Seq<Seq<char>> {
    if p.len() == 0 {
        seq![Seq::<char>::empty()] + s.map_values(|c: char| seq![c]) + seq![Seq::<char>::empty()]
    } else {
        split_from(s, p, 0)
    }
}

/// Index of the first separator that occurs in `text`, or `seps.len()`.
pub open spec fn first_sep(text: Seq<char>, seps: Seq<Seq<char>>, i: int) -> int
    decreases seps.len() - i,
{
    if i < 0 || i >= seps.len() {
        seps.len() as int
    } else if contains_seq(text, seps[i]) {
        i
    } else {
        first_sep(text, seps, i + 1)
    }
}

/// Pieces joined back with the separator while they fit in `cs` bytes: the current
/// piece and the pieces emitted so far after `pieces`.
pub open spec fn merge_pieces(pieces: Seq<Seq<char>>, sep: Seq<char>, cs: int) -> (
    Seq<char>,
    Seq<Seq<char>>,
)
    decreases pieces.len(),
{
    if pieces.len() == 0 {
        (Seq::empty(), Seq::empty())
    } else {
        let (cur, res) = merge_pieces(pieces.drop_last(), sep, cs);
        let p = pieces.last();
        if byte_len(cur) + byte_len(p) + byte_len(sep) <= cs {
            (
                if cur.len() > 0 {
                    cur + sep + p
                } else {
                    cur + p
                },
                res,
            )
        } else {
            (
                p,
                if cur.len() > 0 {
                    res.push(trim_seq(cur))
                } else {
                    res
                },
            )
        }
    }
}

/// Where the cut after the piece `t[i..e]` starts the next piece: `ov` bytes
/// before `e` (at the char boundary there or after it), or at `e` where that
/// would not move past `i`.
pub open spec fn next_cut(t: Seq<char>, ov: int, i: int, e: int) -> int {
    let nb = byte_off(t, e) - ov;
    let n0 = align_idx(t, if nb > 0 {
        nb
    } else {
        0
    });
    if n0 > i {
        n0
    } else {
        e
    }
}

/// Pieces of `cs` bytes each (up to the next char boundary), trimmed, starting at
/// char `i` of `t`, each after the first starting `ov` bytes before the end of the
/// one before it where that moves forward.
pub open spec fn fixed_pieces(t: Seq<char>, cs: int, ov: int, i: int) -> Seq<Seq<char>>
    decreases t.len() - i,
{
    if cs <= 0 || i < 0 || i >= t.len() {
        Seq::empty()
    } else {
        let eb = min_int(byte_off(t, i) + cs, byte_len(t) as int);
        let e = align_idx(t, eb);
        proof {
            lemma_align_range(t, 0, eb);
        }
        if e <= i {
            Seq::empty()
        } else if e >= t.len() {
            seq![trim_seq(t.subrange(i, e))]
        } else {
            let n = next_cut(t, ov, i, e);
            proof {
                let nb = byte_off(t, e) - ov;
                lemma_align_range(t, 0, if nb > 0 {
                    nb
                } else {
                    0
                });
            }
            seq![trim_seq(t.subrange(i, e))] + fixed_pieces(t, cs, ov, n)
        }
    }
}

/// What the recursive separator split yields for `text`: the trimmed text when it
/// fits in `cs` bytes; else its pieces at the first separator that occurs in it,
/// joined back while they fit; else cuts every `cs` bytes, overlapping by `ov`.
/// `None` where the chunk size is zero and no separator occurs.
pub open spec fn sep_split_spec(text: Seq<char>, seps: Seq<Seq<char>>, cs: int, ov: int) -> Option<
    Seq<Seq<char>>,
> {
    if byte_len(text) <= cs {
        if trim_seq(text).len() > 0 {
            Some(seq![trim_seq(text)])
        } else {
            Some(Seq::empty())
        }
    } else {
        let k = first_sep(text, seps, 0);
        if k < seps.len() {
            let sep = seps[k];
            let (cur, res) = merge_pieces(str_split(text, sep), sep, cs);
            Some(
                if cur.len() > 0 {
                    res.push(trim_seq(cur))
                } else {
                    res
                },
            )
        } else if cs <= 0 {
            None
        } else {
            Some(fixed_pieces(text, cs, ov, 0))
        }
    }
}

/// The non-empty texts of `v`, each a chunk with plain metadata, numbered from `so`.
pub open spec fn number_chunks(v: Seq<Seq<char>>) -> Seq<ChunkView>
    decreases v.len(),
{
    if v.len() == 0 {
        Seq::empty()
    } else {
        let r = number_chunks(v.drop_last());
        if v.last().len() > 0 {
            r.push(ChunkView { content: v.last(), meta: plain_meta(), sort_order: r.len() as int })
        } else {
            r
        }
    }
}

proof fn lemma_number_chunks_prefix(v: Seq<Seq<char>>, j: int)
    requires
        0 <= j <= v.len(),
    ensures
        number_chunks(v.take(j)).len() <= number_chunks(v).len(),
    decreases v.len(),
{
    if j < v.len() {
        assert(v.drop_last().take(j) =~= v.take(j));
        lemma_number_chunks_prefix(v.drop_last(), j);
    } else {
        assert(v.take(j) =~= v);
    }
}

pub proof fn lemma_find_first(s: Seq<char>, p: Seq<char>, i: int)
    ensures
        find_first(s, p, i) == -1 || (i <= find_first(s, p, i) && occurs_at(s, p, find_first(s, p, i))),
    decreases s.len() + 1 - i,
{
    if i >= 0 && i + p.len() <= s.len() && !occurs_at(s, p, i) {
        lemma_find_first(s, p, i + 1);
    }
}

/// Leftmost occurrence of `p` in `s` at or after `i`.
fn find_occurrence(s: &Vec<char>, p: &Vec<char>, i: usize) -> (r: Option<usize>)
    ensures
        match r {
            Some(k) => k as int == find_first(s@, p@, i as int) && k >= i,
            None => find_first(s@, p@, i as int) == -1,
        },
{
    let mut k = i;
    if p.len() > s.len() {
        return None;
    }
    if p.len() == 0 {
        if i <= s.len() {
            assert(s@.subrange(i as int, i as int) =~= p@);
            return Some(i);
        }
        return None;
    }
    while k <= s.len() - p.len()
        invariant
            i <= k,
            0 < p.len() <= s.len(),
            find_first(s@, p@, i as int) == find_first(s@, p@, k as int),
        decreases s.len() - k,
    {
        if matches_at(s, p, k) {
            return Some(k);
        }
        k = k + 1;
    }
    None
}

/// The pieces of `s` between the occurrences of `p` (`str::split`).
fn split_on(s: &Vec<char>, p: &Vec<char>) -> (r: Vec<Vec<char>>)
    ensures
        vviews(r@) == str_split(s@, p@),
{
    let mut r: Vec<Vec<char>> = Vec::new();
    if p.len() == 0 {
        r.push(Vec::new());
        let mut i: usize = 0;
        let ghost mv = s@.map_values(|c: char| seq![c]);
        while i < s.len()
            invariant
                i <= s.len(),
                mv == s@.map_values(|c: char| seq![c]),
                vviews(r@) == seq![Seq::<char>::empty()] + mv.take(i as int),
            decreases s.len() - i,
        {
            let mut one: Vec<char> = Vec::new();
            one.push(s[i]);
            let ghost old_r = vviews(r@);
            r.push(one);
            assert(vviews(r@) =~= old_r.push(seq![s@[i as int]]));
            assert(mv.take(i + 1) =~= mv.take(i as int).push(seq![s@[i as int]]));
            i = i + 1;
        }
        let ghost old_r = vviews(r@);
        r.push(Vec::new());
        assert(vviews(r@) =~= old_r.push(Seq::<char>::empty()));
        assert(mv.take(s.len() as int) =~= mv);
        return r;
    }
    let mut i: usize = 0;
    loop
        invariant_except_break
            i <= s.len(),
            vviews(r@) + split_from(s@, p@, i as int) == split_from(s@, p@, 0),
        invariant
            p.len() > 0,
        ensures
            vviews(r@) == split_from(s@, p@, 0),
        decreases s.len() - i,
    {
        proof {
            lemma_find_first(s@, p@, i as int);
        }
        match find_occurrence(s, p, i) {
            Some(k) => {
                let piece = slice_chars(s, i, k);
                let ghost old_r = vviews(r@);
                r.push(piece);
                assert(vviews(r@) =~= old_r.push(piece@));
                assert(vviews(r@) + split_from(s@, p@, (k + p.len()) as int) =~= old_r
                    + split_from(s@, p@, i as int));
                i = k + p.len();
            },
            None => {
                let piece = slice_chars(s, i, s.len());
                let ghost old_r = vviews(r@);
                r.push(piece);
                assert(vviews(r@) =~= old_r.push(piece@));
                assert(vviews(r@) =~= old_r + split_from(s@, p@, i as int));
                break ;
            },
        }
    }
    r
}

/// The first char of `t` at or after byte `b`.
fn align_at(t: &Vec<char>, offs: &Vec<u128>, b: u128) -> (j: usize)
    requires
        offs_ok(t@, offs@),
    ensures
        j == align_idx(t@, b as int),
        j <= t.len(),
{
    proof {
        lemma_align_range(t@, 0, b as int);
    }
    let mut j: usize = 0;
    while j < t.len() && offs[j] < b
        invariant
            j <= t.len(),
            offs_ok(t@, offs@),
            align_idx(t@, b as int) == align_from(t@, j as int, b as int),
        decreases t.len() - j,
    {
        j = j + 1;
    }
    j
}

/// Pieces of `cs` bytes each, trimmed, overlapping by `ov` bytes (the fallback
/// when no separator occurs).
fn cut_fixed(t: &Vec<char>, offs: &Vec<u128>, cs: usize, ov: usize) -> (r: Vec<Vec<char>>)
    requires
        offs_ok(t@, offs@),
        cs > 0,
    ensures
        vviews(r@) == fixed_pieces(t@, cs as int, ov as int, 0),
{
    proof {
        lemma_off_facts(t@);
    }
    let mut r: Vec<Vec<char>> = Vec::new();
    let mut i: usize = 0;
    let l = offs[t.len()];
    while i < t.len()
        invariant
            i <= t.len(),
            offs_ok(t@, offs@),
            cs > 0,
            l as int == byte_len(t@),
            vviews(r@) + fixed_pieces(t@, cs as int, ov as int, i as int) == fixed_pieces(
                t@,
                cs as int,
                ov as int,
                0,
            ),
        decreases t.len() - i,
    {
        proof {
            lemma_off_facts(t@);
            lemma_byte_off_mono(t@, i as int, t.len() as int);
        }
        assert(offs@[i as int] <= l);
        let sum = offs[i] + cs as u128;
        let eb = if sum <= l {
            sum
        } else {
            l
        };
        let e = align_at(t, offs, eb);
        if e <= i {
            assert(fixed_pieces(t@, cs as int, ov as int, i as int) =~= Seq::<Seq<char>>::empty());
            assert(vviews(r@) =~= vviews(r@) + Seq::<Seq<char>>::empty());
            return r;
        }
        let (a, b) = trim_bounds(t, i, e);
        let piece = slice_chars(t, a, b);
        let ghost old_r = vviews(r@);
        r.push(piece);
        assert(vviews(r@) =~= old_r.push(piece@));
        if e >= t.len() {
            assert(vviews(r@) =~= old_r + fixed_pieces(t@, cs as int, ov as int, i as int));
            return r;
        }
        let nb: u128 = if offs[e] > ov as u128 {
            offs[e] - ov as u128
        } else {
            0
        };
        let n0 = align_at(t, offs, nb);
        let n = if n0 > i {
            n0
        } else {
            e
        };
        assert(n as int == next_cut(t@, ov as int, i as int, e as int));
        assert(vviews(r@) + fixed_pieces(t@, cs as int, ov as int, n as int) =~= old_r
            + fixed_pieces(t@, cs as int, ov as int, i as int));
        i = n;
    }
    assert(vviews(r@) =~= vviews(r@) + fixed_pieces(t@, cs as int, ov as int, i as int));
    r
}

/// The separator views of a slice of string slices.
pub open spec fn strs_view(v: Seq<&str>) -> Seq<Seq<char>> {
    v.map_values(|s: &str| s@)
}

impl TextSplitter {
    /// The recursive separator split of `text`.
    fn split_recursive(
        text: &Vec<char>,
        seps: &Vec<Vec<char>>,
        chunk_size: usize,
        chunk_overlap: usize,
    ) -> (r: Vec<Vec<char>>)
        requires
            sep_split_spec(text@, vviews(seps@), chunk_size as int, chunk_overlap as int) is Some,
        ensures
            vviews(r@) == sep_split_spec(
                text@,
                vviews(seps@),
                chunk_size as int,
                chunk_overlap as int,
            ).unwrap(),
    {
        let ghost sv = vviews(seps@);
        let mut result: Vec<Vec<char>> = Vec::new();
        let len = byte_count(text, 0, text.len());
        assert(text@.subrange(0, text.len() as int) =~= text@);
        if len <= chunk_size as u128 {
            let t = trim_chars(text);
            if t.len() > 0 {
                result.push(t);
                assert(vviews(result@) =~= seq![t@]);
            } else {
                assert(vviews(result@) =~= Seq::<Seq<char>>::empty());
            }
            return result;
        }
        let mut k: usize = 0;
        while k < seps.len() && !contains(text, &seps[k])
            invariant
                k <= seps.len(),
                sv == vviews(seps@),
                first_sep(text@, sv, 0) == first_sep(text@, sv, k as int),
            decreases seps.len() - k,
        {
            k = k + 1;
        }
        if k < seps.len() {
            let sep = &seps[k];
            let pieces = split_on(text, sep);
            let ghost pv = vviews(pieces@);
            let sep_len = byte_count(sep, 0, sep.len());
            assert(sep@.subrange(0, sep.len() as int) =~= sep@);
            let mut cur: Vec<char> = Vec::new();
            let mut j: usize = 0;
            assert(pv.take(0) =~= Seq::<Seq<char>>::empty());
            assert(vviews(result@) =~= Seq::<Seq<char>>::empty());
            while j < pieces.len()
                invariant
                    j <= pieces.len(),
                    pv == vviews(pieces@),
                    sep_len as int == byte_len(sep@),
                    (cur@, vviews(result@)) == merge_pieces(pv.take(j as int), sep@, chunk_size as int),
                decreases pieces.len() - j,
            {
                assert(pv.take(j + 1).drop_last() =~= pv.take(j as int));
                assert(pv.take(j + 1).last() == pieces@[j as int]@);
                let piece = &pieces[j];
                let cl = byte_count(&cur, 0, cur.len());
                let pl = byte_count(piece, 0, piece.len());
                assert(cur@.subrange(0, cur.len() as int) =~= cur@);
                assert(piece@.subrange(0, piece.len() as int) =~= piece@);
                proof {
                    lemma_byte_len_le_len(cur@);
                    lemma_byte_len_le_len(piece@);
                    lemma_byte_len_le_len(sep@);
                }
                assert(cl <= 4 * cur.len());
                assert(pl <= 4 * piece.len());
                assert(sep_len <= 4 * sep.len());
                if cl + pl + sep_len <= chunk_size as u128 {
                    if cur.len() > 0 {
                        append_all(&mut cur, sep);
                    }
                    append_all(&mut cur, piece);
                } else {
                    if cur.len() > 0 {
                        let t = trim_chars(&cur);
                        let ghost old_r = vviews(result@);
                        result.push(t);
                        assert(vviews(result@) =~= old_r.push(t@));
                    }
                    cur = slice_chars(piece, 0, piece.len());
                }
                j = j + 1;
            }
            assert(pv.take(pieces.len() as int) =~= pv);
            if cur.len() > 0 {
                let t = trim_chars(&cur);
                let ghost old_r = vviews(result@);
                result.push(t);
                assert(vviews(result@) =~= old_r.push(t@));
            }
            return result;
        }
        let offs = byte_offsets(text);
        cut_fixed(text, &offs, chunk_size, chunk_overlap)
    }

    /// Split text by separators (recursive character text splitter style).
    pub fn split_by_separators(&self, text: &str, separators: &[&str]) -> (r: Vec<TextChunk>)
        requires
            sep_split_spec(
                text@,
                strs_view(separators@),
                self.config_spec().chunk_size as int,
                self.config_spec().chunk_overlap as int,
            ) is Some,
            number_chunks(
                sep_split_spec(
                    text@,
                    strs_view(separators@),
                    self.config_spec().chunk_size as int,
                    self.config_spec().chunk_overlap as int,
                ).unwrap(),
            ).len() <= i32::MAX,
        ensures
            chunk_views(r@) == number_chunks(
                sep_split_spec(
                    text@,
                    strs_view(separators@),
                    self.config_spec().chunk_size as int,
                    self.config_spec().chunk_overlap as int,
                ).unwrap(),
            ),
    {
        let t = chars_of(text);
        let mut seps: Vec<Vec<char>> = Vec::new();
        let mut i: usize = 0;
        while i < separators.len()
            invariant
                i <= separators.len(),
                vviews(seps@) == strs_view(separators@).take(i as int),
            decreases separators.len() - i,
        {
            let c = chars_of(separators[i]);
            let ghost old_s = vviews(seps@);
            seps.push(c);
            assert(vviews(seps@) =~= old_s.push(c@));
            assert(strs_view(separators@).take(i + 1) =~= strs_view(separators@).take(i as int).push(
                separators@[i as int]@,
            ));
            i = i + 1;
        }
        assert(strs_view(separators@).take(separators.len() as int) =~= strs_view(separators@));
        let texts = Self::split_recursive(
            &t,
            &seps,
            self.config.chunk_size,
            self.config.chunk_overlap,
        );
        let ghost tv = vviews(texts@);
        let mut chunks: Vec<TextChunk> = Vec::new();
        let mut so: i32 = 0;
        let mut j: usize = 0;
        assert(tv.take(0) =~= Seq::<Seq<char>>::empty());
        assert(chunk_views(chunks@) =~= Seq::<ChunkView>::empty());
        while j < texts.len()
            invariant
                j <= texts.len(),
                tv == vviews(texts@),
                number_chunks(tv).len() <= i32::MAX,
                chunk_views(chunks@) == number_chunks(tv.take(j as int)),
                so as int == chunks.len(),
            decreases texts.len() - j,
        {
            proof {
                lemma_number_chunks_prefix(tv, j + 1);
            }
            assert(tv.take(j + 1).drop_last() =~= tv.take(j as int));
            assert(tv.take(j + 1).last() == texts@[j as int]@);
            if texts[j].len() > 0 {
                let content = string_from_chars(&texts[j]);
                let chunk = TextChunk::new(content, ChunkMetadata::default(), so);
                let ghost old_c = chunk_views(chunks@);
                chunks.push(chunk);
                assert(chunk_views(chunks@) =~= old_c.push(chunk@));
                so = so + 1;
            }
            j = j + 1;
        }
        assert(tv.take(texts.len() as int) =~= tv);
        chunks
    }
}

impl Default for TextSplitter {
    fn default() -> (r: Self)
        ensures
            r.config_spec().chunk_size == 1500,
            r.config_spec().chunk_overlap == 200,
            r.config_spec().preserve_words,
    {
        Self::new()
    }
}

proof fn lemma_text_loop_tidy(t: Seq<char>, cfg: SplitConfig, sb: int, so: int, acc: Seq<ChunkView>)
    requires
        tidy_chunks(acc),
        numbered_in_order(acc),
        so == acc.len(),
    ensures
        text_loop(t, cfg, sb, so, acc) matches Some(x) ==> tidy_chunks(x.0) && numbered_in_order(x.0)
            && x.1 == x.0.len(),
    decreases byte_len(t) - sb,
{
    let l = byte_len(t) as int;
    if sb < l {
        match chunk_end(t, cfg, sb) {
            None => {},
            Some(eb) => {
                if on_boundary(t, sb) && on_boundary(t, eb) && eb >= sb {
                    let raw = t.subrange(align_idx(t, sb), align_idx(t, eb));
                    let ch = trim_seq(raw);
                    lemma_trim_idem(raw);
                    let acc2 = if ch.len() > 0 {
                        acc.push(ChunkView { content: ch, meta: plain_meta(), sort_order: so })
                    } else {
                        acc
                    };
                    let so2 = if ch.len() > 0 {
                        so + 1
                    } else {
                        so
                    };
                    assert(tidy_chunks(acc2)) by {
                        assert forall|i: int| 0 <= i < acc2.len() implies #[trigger] acc2[i].content.len() > 0 && is_trimmed(acc2[i].content) by {
                            if i < acc.len() {
                                assert(acc2[i] == acc[i]);
                            }
                        }
                    }
                    assert(numbered_in_order(acc2)) by {
                        assert forall|i: int| 0 <= i < acc2.len() implies #[trigger] acc2[i].sort_order == i by {
                            if i < acc.len() {
                                assert(acc2[i] == acc[i]);
                            }
                        }
                    }
                    let ns = if eb >= l {
                        l
                    } else if eb >= cfg.chunk_overlap {
                        eb - cfg.chunk_overlap
                    } else {
                        0
                    };
                    let nsb = if ns <= sb {
                        eb
                    } else {
                        ns
                    };
                    if nsb > sb {
                        lemma_text_loop_tidy(t, cfg, nsb, so2, acc2);
                    }
                }
            },
        }
    }
}

/// Every chunk that `TextSplitter::split` yields holds text with no whitespace
/// at either end, and the chunks are numbered 0, 1, 2, ... in order.
pub proof fn law_text_split_chunks(text: Seq<char>, cfg: SplitConfig)
    requires
        text_split_spec(text, cfg) is Some,
    ensures
        tidy_chunks(text_split_spec(text, cfg).unwrap().0),
        numbered_in_order(text_split_spec(text, cfg).unwrap().0),
{
    let t = trim_seq(text);
    if t.len() > 0 {
        lemma_text_loop_tidy(t, cfg, 0, 0, Seq::empty());
    }
}

/// Splitting a text that is empty once trimmed yields no chunk.
pub proof fn law_text_split_blank(text: Seq<char>, cfg: SplitConfig)
    requires
        trim_seq(text).len() == 0,
    ensures
        text_split_spec(text, cfg) == Some((Seq::<ChunkView>::empty(), 0int)),
{
}

proof fn lemma_number_chunks(v: Seq<Seq<char>>)
    ensures
        numbered_in_order(number_chunks(v)),
        forall|i: int| 0 <= i < number_chunks(v).len() ==> #[trigger] number_chunks(v)[i].content.len() > 0,
        (forall|i: int| 0 <= i < v.len() ==> is_trimmed(#[trigger] v[i])) ==> tidy_chunks(number_chunks(v)),
    decreases v.len(),
{
    if v.len() > 0 {
        lemma_number_chunks(v.drop_last());
        let r = number_chunks(v.drop_last());
        let n = number_chunks(v);
        assert forall|i: int| 0 <= i < n.len() implies #[trigger] n[i].sort_order == i && n[i].content.len() > 0 by {
            if i < r.len() {
                assert(n[i] == r[i]);
            }
        }
        if forall|i: int| 0 <= i < v.len() ==> is_trimmed(#[trigger] v[i]) {
            assert forall|i: int| 0 <= i < v.drop_last().len() implies is_trimmed(#[trigger] v.drop_last()[i]) by {
                assert(v.drop_last()[i] == v[i]);
            }
            assert forall|i: int| 0 <= i < n.len() implies #[trigger] n[i].content.len() > 0 && is_trimmed(n[i].content) by {
                if i < r.len() {
                    assert(n[i] == r[i]);
                } else {
                    assert(is_trimmed(v[v.len() - 1]));
                }
            }
        }
    }
}

proof fn lemma_merge_trimmed(pieces: Seq<Seq<char>>, sep: Seq<char>, cs: int)
    ensures
        forall|i: int| 0 <= i < merge_pieces(pieces, sep, cs).1.len() ==> is_trimmed(#[trigger] merge_pieces(pieces, sep, cs).1[i]),
    decreases pieces.len(),
{
    if pieces.len() > 0 {
        lemma_merge_trimmed(pieces.drop_last(), sep, cs);
        let (cur, res) = merge_pieces(pieces.drop_last(), sep, cs);
        lemma_trim_idem(cur);
        let r2 = merge_pieces(pieces, sep, cs).1;
        assert forall|i: int| 0 <= i < r2.len() implies is_trimmed(#[trigger] r2[i]) by {
            if i < res.len() {
                assert(r2[i] == res[i]);
            }
        }
    }
}

proof fn lemma_fixed_trimmed(t: Seq<char>, cs: int, ov: int, i: int)
    ensures
        forall|k: int|
            0 <= k < fixed_pieces(t, cs, ov, i).len() ==> is_trimmed(#[trigger] fixed_pieces(t, cs, ov, i)[k]),
    decreases t.len() - i,
{
    if cs > 0 && 0 <= i < t.len() {
        let eb = min_int(byte_off(t, i) + cs, byte_len(t) as int);
        let e = align_idx(t, eb);
        lemma_align_range(t, 0, eb);
        if e > i {
            lemma_trim_idem(t.subrange(i, e));
            if e < t.len() {
                let n = next_cut(t, ov, i, e);
                let nb = byte_off(t, e) - ov;
                lemma_align_range(t, 0, if nb > 0 {
                    nb
                } else {
                    0
                });
                lemma_fixed_trimmed(t, cs, ov, n);
                let rest = fixed_pieces(t, cs, ov, n);
                let v = seq![trim_seq(t.subrange(i, e))] + rest;
                assert forall|k: int| 0 <= k < v.len() implies is_trimmed(#[trigger] v[k]) by {
                    if k > 0 {
                        assert(v[k] == rest[k - 1]);
                    }
                }
            }
        }
    }
}

/// Every chunk that `TextSplitter::split_by_separators` yields holds text with
/// no whitespace at either end, and the chunks are numbered 0, 1, 2, ... in order.
pub proof fn law_separator_split_chunks(text: Seq<char>, seps: Seq<Seq<char>>, cs: int, ov: int)
    requires
        sep_split_spec(text, seps, cs, ov) is Some,
    ensures
        tidy_chunks(number_chunks(sep_split_spec(text, seps, cs, ov).unwrap())),
        numbered_in_order(number_chunks(sep_split_spec(text, seps, cs, ov).unwrap())),
{
    let v = sep_split_spec(text, seps, cs, ov).unwrap();
    if byte_len(text) <= cs {
        lemma_trim_idem(text);
    } else {
        let k = first_sep(text, seps, 0);
        if k < seps.len() {
            let sep = seps[k];
            let (cur, res) = merge_pieces(str_split(text, sep), sep, cs);
            lemma_merge_trimmed(str_split(text, sep), sep, cs);
            lemma_trim_idem(cur);
            assert forall|i: int| 0 <= i < v.len() implies is_trimmed(#[trigger] v[i]) by {
                if i < res.len() {
                    assert(v[i] == res[i]);
                }
            }
        } else {
            lemma_fixed_trimmed(text, cs, ov, 0);
        }
    }
    lemma_number_chunks(v);
}

proof fn lemma_text_loop_cover(t: Seq<char>, cfg: SplitConfig, sb: int, so: int, acc: Seq<ChunkView>, ch: char)
    requires
        cfg.chunk_size > 0,
        sb >= 0,
        !is_ws(ch),
    ensures
        text_loop(t, cfg, sb, so, acc) matches Some((cs, _)) ==> chunks_count(cs, ch) >= chunks_count(acc, ch)
            + count_char(t.subrange(align_idx(t, sb), t.len() as int), ch),
    decreases byte_len(t) - sb,
{
    let l = byte_len(t) as int;
    lemma_off_end(t);
    lemma_align_range(t, 0, sb);
    if sb >= l {
        lemma_align_end(t, sb);
        assert(t.subrange(t.len() as int, t.len() as int) =~= Seq::<char>::empty());
    } else {
        lemma_chunk_end_gt(t, cfg, sb);
        if let Some(eb) = chunk_end(t, cfg, sb) {
            if on_boundary(t, sb) && on_boundary(t, eb) && eb >= sb {
                let s = align_idx(t, sb);
                let e = align_idx(t, eb);
                lemma_align_range(t, 0, eb);
                if e < t.len() {
                    lemma_align_le(t, sb, e);
                } else {
                    lemma_align_le(t, sb, t.len() as int);
                }
                let piece = trim_seq(t.subrange(s, e));
                lemma_count_char_trim(t.subrange(s, e), ch);
                let acc2 = if piece.len() > 0 {
                    acc.push(ChunkView { content: piece, meta: plain_meta(), sort_order: so })
                } else {
                    acc
                };
                let so2 = if piece.len() > 0 {
                    so + 1
                } else {
                    so
                };
                if piece.len() > 0 {
                    lemma_chunks_count_push(acc, ChunkView { content: piece, meta: plain_meta(), sort_order: so }, ch);
                } else {
                    lemma_count_char_none(piece, ch);
                }
                let ns = if eb >= l {
                    l
                } else if eb >= cfg.chunk_overlap {
                    eb - cfg.chunk_overlap
                } else {
                    0
                };
                let nsb = if ns <= sb {
                    eb
                } else {
                    ns
                };
                assert(sb < nsb <= eb);
                let rest = t.subrange(s, t.len() as int);
                assert(rest =~= t.subrange(s, e) + t.subrange(e, t.len() as int));
                lemma_count_char_add(t.subrange(s, e), t.subrange(e, t.len() as int), ch);
                lemma_text_loop_cover(t, cfg, nsb, so2, acc2, ch);
                let s2 = align_idx(t, nsb);
                lemma_align_le(t, nsb, e);
                lemma_align_range(t, 0, nsb);
                let u = t.subrange(s2, t.len() as int);
                lemma_count_char_suffix(u, e - s2, ch);
                assert(u.subrange(e - s2, u.len() as int) =~= t.subrange(e, t.len() as int));
            }
        }
    }
}

/// `TextSplitter::split` loses no text: every char that is not whitespace occurs
/// in the chunks at least as often as in the text (chunks overlap, never leave a
/// gap).
pub proof fn law_text_split_cover(text: Seq<char>, cfg: SplitConfig, ch: char)
    requires
        cfg.chunk_size > 0,
        !is_ws(ch),
    ensures
        text_split_spec(text, cfg) matches Some((cs, _)) ==> chunks_count(cs, ch) >= count_char(text, ch),
{
    let t = trim_seq(text);
    lemma_count_char_trim(text, ch);
    if t.len() == 0 {
        lemma_count_char_none(t, ch);
    } else {
        lemma_text_loop_cover(t, cfg, 0, 0, Seq::empty(), ch);
        assert(t.take(0) =~= Seq::<char>::empty());
        assert(byte_off(t, 0) == 0);
        assert(align_idx(t, 0) == 0);
        assert(t.subrange(0, t.len() as int) =~= t);
    }
}

} // verus!
