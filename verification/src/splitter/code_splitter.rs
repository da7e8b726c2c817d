//! Code splitter for source code files.
//!
//! Code is cut into blocks that start at a definition (a function, a type, a
//! class); a block ends where its braces balance again on a closing line. Code
//! outside any definition gathers in "module" blocks. Blocks too large for one
//! chunk, and all code when definitions are not kept whole, are cut by lines.
use vstd::prelude::*;

use crate::pattern::{groups_view, regex_captures, regex_captures_of};
use crate::splitter::text_splitter::strs_view;
use crate::splitter::{chunk_views, ChunkView, SplitConfig, TextChunk};
use crate::text::{
    append_all, byte_count, byte_len, chars_of, copy_chars, count_char, count_chars, join_lines,
    join_nl, lines_acc, lemma_byte_len_le_len, lemma_lines_total, lemma_lines_weight, lemma_total_len_prefix, lines_of,
    matches_at, occurs_at, split_lines, str_eq, string_from_chars, total_len, trim_chars,
    trim_seq, vviews,
};
use crate::types::{strings_view, ChunkMetadata, MetaView};

verus! {

broadcast use vstd::string::group_string_axioms;

/// Code splitter configuration.
#[derive(Debug, Clone)]
pub struct CodeSplitConfig {
    /// Base split configuration.
    pub base: SplitConfig,
    /// Maximum lines per chunk.
    pub max_lines_per_chunk: usize,
    /// Whether to preserve function boundaries.
    pub preserve_functions: bool,
}

impl Default for CodeSplitConfig {
    fn default() -> (r: Self)
        ensures
            r.base.chunk_size == 1500,
            r.base.chunk_overlap == 200,
            r.base.preserve_words,
            r.max_lines_per_chunk == 100,
            r.preserve_functions,
    {
        CodeSplitConfig {
            base: SplitConfig { chunk_size: 1500, chunk_overlap: 200, preserve_words: true },
            max_lines_per_chunk: 100,
            preserve_functions: true,
        }
    }
}

/// The languages whose definitions are recognised.
#[derive(Debug, Clone, Copy, PartialEq, Eq, Structural)]
pub enum LangKind {
    Rust,
    Python,
    Js,
    Go,
    Other,
}

/// The kind of a language name.
pub open spec fn lang_kind(l: Seq<char>) -> LangKind {
    if l == "rust"@ {
        LangKind::Rust
    } else if l == "python"@ {
        LangKind::Python
    } else if l == "javascript"@ || l == "typescript"@ {
        LangKind::Js
    } else if l == "go"@ {
        LangKind::Go
    } else {
        LangKind::Other
    }
}

/// The definition patterns tried for a language, in order.
pub open spec fn patterns_of(k: LangKind) -> Seq<Seq<char>> {
    match k {
        LangKind::Rust => seq![
            r"^fn\s+(\w+)"@,
            r"^(pub\s+)?struct\s+(\w+)"@,
            r"^(pub\s+)?enum\s+(\w+)"@,
            r"^(pub\s+)?trait\s+(\w+)"@,
            r"^impl\s+(\w+)"@,
        ],
        LangKind::Python => seq![r"^def\s+(\w+)"@, r"^class\s+(\w+)"@, r"^async\s+def\s+(\w+)"@],
        LangKind::Js => seq![
            r"^function\s+(\w+)"@,
            r"^(const|let|var)\s+(\w+)\s*=\s*(async\s+)?function"@,
            r"^(const|let|var)\s+(\w+)\s*=\s*\("@,
            r"^class\s+(\w+)"@,
            r"^(export\s+)?(async\s+)?function\s+(\w+)"@,
        ],
        LangKind::Go => seq![
            r"^func\s+(\w+)"@,
            r"^func\s*\(\w+\s+\*?\w+\)\s+(\w+)"@,
            r"^type\s+(\w+)\s+struct"@,
            r"^type\s+(\w+)\s+interface"@,
        ],
        LangKind::Other => seq![r"(\w+)\s*\([^)]*\)\s*\{"@],
    }
}

/// The block level that goes with each pattern of `patterns_of`.
pub open spec fn levels_of(k: LangKind) -> Seq<i32> {
    match k {
        LangKind::Rust => seq![1i32, 1i32, 1i32, 1i32, 1i32],
        LangKind::Python => seq![1i32, 1i32, 1i32],
        LangKind::Js => seq![1i32, 1i32, 1i32, 1i32, 1i32],
        LangKind::Go => seq![1i32, 2i32, 1i32, 1i32],
        LangKind::Other => seq![1i32],
    }
}

/// Group `i` of a match, if it took part.
pub open spec fn group_at(g: Seq<Option<Seq<char>>>, i: int) -> Option<Seq<char>> {
    if 0 <= i < g.len() {
        g[i]
    } else {
        None
    }
}

/// The last group among `1..=i` that took part in the match.
pub open spec fn last_group(g: Seq<Option<Seq<char>>>, i: int) -> Option<Seq<char>>
    decreases i,
{
    if i < 1 {
        None
    } else {
        match group_at(g, i) {
            Some(m) => Some(m),
            None => last_group(g, i - 1),
        }
    }
}

/// The JavaScript words that are never taken for a definition's name.
pub open spec fn is_js_keyword(n: Seq<char>) -> bool {
    n == "const"@ || n == "let"@ || n == "var"@ || n == "export"@ || n == "async"@ || n
        == "function"@
}

/// The last group among `1..=i` that took part and is not a keyword.
pub open spec fn js_group(g: Seq<Option<Seq<char>>>, i: int) -> Option<Seq<char>>
    decreases i,
{
    if i < 1 {
        None
    } else {
        match group_at(g, i) {
            Some(m) => if is_js_keyword(m) {
                js_group(g, i - 1)
            } else {
                Some(m)
            },
            None => js_group(g, i - 1),
        }
    }
}

/// The definition found in `line` by the patterns from index `i` on: the name
/// and level that the first matching pattern gives.
pub open spec fn def_search(
    line: Seq<char>,
    pats: Seq<Seq<char>>,
    levels: Seq<i32>,
    k: LangKind,
    i: int,
) -> Option<(Seq<char>, int)>
    decreases pats.len() - i,
{
    if i < 0 || i >= pats.len() {
        None
    } else {
        match regex_captures_of(pats[i], line) {
            None => def_search(line, pats, levels, k, i + 1),
            Some(g) => match k {
                LangKind::Rust => Some(
                    (
                        match last_group(g, g.len() - 1) {
                            Some(n) => n,
                            None => "unknown"@,
                        },
                        levels[i] as int,
                    ),
                ),
                LangKind::Js => match js_group(g, g.len() - 1) {
                    Some(n) => Some((n, levels[i] as int)),
                    None => def_search(line, pats, levels, k, i + 1),
                },
                _ => match group_at(g, 1) {
                    Some(n) => Some((n, levels[i] as int)),
                    None => None,
                },
            },
        }
    }
}

/// The definition that starts at the trimmed `line`, if any; none inside a block.
pub open spec fn find_def(line: Seq<char>, k: LangKind, in_block: bool) -> Option<(Seq<char>, int)> {
    if in_block {
        None
    } else {
        def_search(line, patterns_of(k), levels_of(k), k, 0)
    }
}

/// A found definition as plain values.
pub open spec fn def_view(r: Option<(String, i32)>) -> Option<(Seq<char>, int)> {
    match r {
        Some((n, l)) => Some((n@, l as int)),
        None => None,
    }
}

/// The kind of a language name.
fn lang_kind_of(language: &str) -> (k: LangKind)
    ensures
        k == lang_kind(language@),
{
    if str_eq(language, "rust") {
        LangKind::Rust
    } else if str_eq(language, "python") {
        LangKind::Python
    } else if str_eq(language, "javascript") || str_eq(language, "typescript") {
        LangKind::Js
    } else if str_eq(language, "go") {
        LangKind::Go
    } else {
        LangKind::Other
    }
}

/// The definition patterns of a language and their levels.
fn patterns_for(k: LangKind) -> (r: (Vec<&'static str>, Vec<i32>))
    ensures
        strs_view(r.0@) == patterns_of(k),
        r.1@ == levels_of(k),
{
    let mut p: Vec<&'static str> = Vec::new();
    let mut l: Vec<i32> = Vec::new();
    match k {
        LangKind::Rust => {
            p.push(r"^fn\s+(\w+)");
            p.push(r"^(pub\s+)?struct\s+(\w+)");
            p.push(r"^(pub\s+)?enum\s+(\w+)");
            p.push(r"^(pub\s+)?trait\s+(\w+)");
            p.push(r"^impl\s+(\w+)");
            l.push(1);
            l.push(1);
            l.push(1);
            l.push(1);
            l.push(1);
        },
        LangKind::Python => {
            p.push(r"^def\s+(\w+)");
            p.push(r"^class\s+(\w+)");
            p.push(r"^async\s+def\s+(\w+)");
            l.push(1);
            l.push(1);
            l.push(1);
        },
        LangKind::Js => {
            p.push(r"^function\s+(\w+)");
            p.push(r"^(const|let|var)\s+(\w+)\s*=\s*(async\s+)?function");
            p.push(r"^(const|let|var)\s+(\w+)\s*=\s*\(");
            p.push(r"^class\s+(\w+)");
            p.push(r"^(export\s+)?(async\s+)?function\s+(\w+)");
            l.push(1);
            l.push(1);
            l.push(1);
            l.push(1);
            l.push(1);
        },
        LangKind::Go => {
            p.push(r"^func\s+(\w+)");
            p.push(r"^func\s*\(\w+\s+\*?\w+\)\s+(\w+)");
            p.push(r"^type\s+(\w+)\s+struct");
            p.push(r"^type\s+(\w+)\s+interface");
            l.push(1);
            l.push(2);
            l.push(1);
            l.push(1);
        },
        LangKind::Other => {
            p.push(r"(\w+)\s*\([^)]*\)\s*\{");
            l.push(1);
        },
    }
    assert(strs_view(p@) =~= patterns_of(k));
    assert(l@ =~= levels_of(k));
    (p, l)
}

/// Group `i` of a match, if it took part.
fn group_string(g: &Vec<Option<String>>, i: usize) -> (r: Option<String>)
    ensures
        match r {
            Some(s) => group_at(groups_view(g@), i as int) == Some(s@),
            None => group_at(groups_view(g@), i as int) is None,
        },
{
    if i < g.len() {
        match &g[i] {
            Some(s) => Some(s.clone()),
            None => None,
        }
    } else {
        None
    }
}

/// The last group of a match, group 0 aside, that took part.
fn last_group_name(g: &Vec<Option<String>>) -> (r: Option<String>)
    requires
        g.len() >= 1,
    ensures
        match r {
            Some(s) => last_group(groups_view(g@), g.len() - 1) == Some(s@),
            None => last_group(groups_view(g@), g.len() - 1) is None,
        },
{
    let ghost gv = groups_view(g@);
    let mut i = g.len() - 1;
    while i >= 1
        invariant
            i < g.len(),
            gv == groups_view(g@),
            last_group(gv, g.len() - 1) == last_group(gv, i as int),
        decreases i,
    {
        match group_string(g, i) {
            Some(s) => {
                return Some(s);
            },
            None => {},
        }
        i = i - 1;
    }
    None
}

/// Whether `n` is one of the JavaScript words never taken for a name.
fn is_js_keyword_exec(n: &String) -> (b: bool)
    ensures
        b == is_js_keyword(n@),
{
    let s = n.as_str();
    str_eq(s, "const") || str_eq(s, "let") || str_eq(s, "var") || str_eq(s, "export") || str_eq(
        s,
        "async",
    ) || str_eq(s, "function")
}

/// The last group of a match, group 0 aside, that took part and is no keyword.
fn js_group_name(g: &Vec<Option<String>>) -> (r: Option<String>)
    requires
        g.len() >= 1,
    ensures
        match r {
            Some(s) => js_group(groups_view(g@), g.len() - 1) == Some(s@),
            None => js_group(groups_view(g@), g.len() - 1) is None,
        },
{
    let ghost gv = groups_view(g@);
    let mut i = g.len() - 1;
    while i >= 1
        invariant
            i < g.len(),
            gv == groups_view(g@),
            js_group(gv, g.len() - 1) == js_group(gv, i as int),
        decreases i,
    {
        match group_string(g, i) {
            Some(s) => {
                if !is_js_keyword_exec(&s) {
                    return Some(s);
                }
            },
            None => {},
        }
        i = i - 1;
    }
    None
}

/// The definition found in `line` by the first matching pattern of `pats`.
fn search_patterns(line: &str, pats: &Vec<&str>, levels: &Vec<i32>, k: LangKind) -> (r: Option<
    (String, i32),
>)
    requires
        pats.len() == levels.len(),
    ensures
        def_view(r) == def_search(line@, strs_view(pats@), levels@, k, 0),
{
    let ghost pv = strs_view(pats@);
    let mut i: usize = 0;
    while i < pats.len()
        invariant
            i <= pats.len(),
            pats.len() == levels.len(),
            pv == strs_view(pats@),
            def_search(line@, pv, levels@, k, 0) == def_search(line@, pv, levels@, k, i as int),
        decreases pats.len() - i,
    {
        assert(pv[i as int] == pats@[i as int]@);
        match regex_captures(pats[i], line) {
            None => {},
            Some(g) => {
                match k {
                    LangKind::Rust => {
                        let name = match last_group_name(&g) {
                            Some(n) => n,
                            None => "unknown".to_owned(),
                        };
                        return Some((name, levels[i]));
                    },
                    LangKind::Js => {
                        match js_group_name(&g) {
                            Some(n) => {
                                return Some((n, levels[i]));
                            },
                            None => {},
                        }
                    },
                    _ => {
                        return match group_string(&g, 1) {
                            Some(n) => Some((n, levels[i])),
                            None => None,
                        };
                    },
                }
            },
        }
        i = i + 1;
    }
    None
}


/// The change in brace depth over a line.
pub open spec fn brace_delta(t: Seq<char>) -> int {
    count_char(t, '{') as int - count_char(t, '}') as int
}

/// Whether the trimmed line `t` closes a block of the language.
pub open spec fn is_block_end(t: Seq<char>, k: LangKind) -> bool {
    match k {
        LangKind::Python => occurs_at(t, "def "@, 0) || occurs_at(t, "class "@, 0) || occurs_at(
            t,
            "@"@,
            0,
        ),
        _ => trim_seq(t).len() > 0 && trim_seq(t)[0] == '}',
    }
}

/// A block of code as plain values.
pub struct BlockView {
    pub name: Seq<char>,
    pub level: int,
    pub content: Seq<char>,
}

/// The state of the block search after some lines.
pub struct BlocksState {
    pub blocks: Seq<BlockView>,
    pub cur: Option<BlockView>,
    pub brace: int,
    pub in_block: bool,
}

/// `b` with one more line.
pub open spec fn with_line(b: BlockView, l: Seq<char>) -> BlockView {
    BlockView { name: b.name, level: b.level, content: b.content + seq!['\n'] + l }
}

/// `blocks`, with `cur` after them if there is one.
pub open spec fn push_cur(blocks: Seq<BlockView>, cur: Option<BlockView>) -> Seq<BlockView> {
    match cur {
        Some(b) => blocks.push(b),
        None => blocks,
    }
}

/// One line of the block search.
pub open spec fn blocks_step(st: BlocksState, l: Seq<char>, k: LangKind, cs: int) -> BlocksState {
    let t = trim_seq(l);
    match find_def(t, k, st.in_block) {
        Some((n, lv)) => BlocksState {
            blocks: push_cur(st.blocks, st.cur),
            cur: Some(BlockView { name: n, level: lv, content: l }),
            brace: brace_delta(t),
            in_block: true,
        },
        None => if st.in_block {
            match st.cur {
                Some(b) => {
                    let nb = with_line(b, l);
                    let br = st.brace + brace_delta(t);
                    if br == 0 && is_block_end(t, k) {
                        BlocksState { blocks: st.blocks.push(nb), cur: None, brace: br, in_block: false }
                    } else {
                        BlocksState { blocks: st.blocks, cur: Some(nb), brace: br, in_block: true }
                    }
                },
                None => st,
            }
        } else {
            match st.cur {
                None => BlocksState {
                    blocks: st.blocks,
                    cur: Some(BlockView { name: "module"@, level: 0, content: l }),
                    brace: st.brace,
                    in_block: st.in_block,
                },
                Some(b) => {
                    let nb = with_line(b, l);
                    if byte_len(nb.content) > cs {
                        BlocksState { blocks: st.blocks.push(nb), cur: None, brace: st.brace, in_block: st.in_block }
                    } else {
                        BlocksState { blocks: st.blocks, cur: Some(nb), brace: st.brace, in_block: st.in_block }
                    }
                },
            }
        },
    }
}

/// The block search over `ls`.
pub open spec fn blocks_fold(ls: Seq<Seq<char>>, k: LangKind, cs: int) -> BlocksState
    decreases ls.len(),
{
    if ls.len() == 0 {
        BlocksState { blocks: Seq::empty(), cur: None, brace: 0, in_block: false }
    } else {
        blocks_step(blocks_fold(ls.drop_last(), k, cs), ls.last(), k, cs)
    }
}

/// The code blocks of the lines `ls`.
pub open spec fn code_blocks(ls: Seq<Seq<char>>, k: LangKind, cs: int) -> Seq<BlockView> {
    let st = blocks_fold(ls, k, cs);
    push_cur(st.blocks, st.cur)
}

/// A code block (function, class, etc.).
struct CodeBlock {
    name: String,
    level: i32,
    content: Vec<char>,
}

impl View for CodeBlock {
    type V = BlockView;

    closed spec fn view(&self) -> BlockView {
        BlockView { name: self.name@, level: self.level as int, content: self.content@ }
    }
}

spec fn blocks_view(v: Seq<CodeBlock>) -> Seq<BlockView> {
    v.map_values(|b: CodeBlock| b@)
}

spec fn cur_view(c: Option<CodeBlock>) -> Option<BlockView> {
    match c {
        Some(b) => Some(b@),
        None => None,
    }
}

/// Metadata of the chunks cut from code by lines.
pub open spec fn code_meta(lang: Seq<char>) -> MetaView {
    MetaView { level: None, path: None, types: Some(seq!["code"@, lang]) }
}

/// Metadata of the chunk of a whole block.
pub open spec fn block_meta(b: BlockView, lang: Seq<char>) -> MetaView {
    MetaView { level: Some(b.level), path: Some(seq![b.name]), types: Some(seq!["code"@, lang]) }
}

/// The state of the line split after some lines.
pub struct LinesState {
    pub chunks: Seq<ChunkView>,
    pub cur: Seq<Seq<char>>,
    pub size: int,
    pub so: int,
}

/// One line of the line split: the lines gathered so far become a chunk when
/// this line would make them exceed the chunk size or the line limit.
pub open spec fn lines_step(st: LinesState, l: Seq<char>, cfg: CodeSplitConfig, lang: Seq<char>) -> LinesState {
    let ls = byte_len(l) + 1int;
    if st.size + ls > cfg.base.chunk_size || st.cur.len() >= cfg.max_lines_per_chunk {
        if st.cur.len() > 0 {
            LinesState {
                chunks: st.chunks.push(
                    ChunkView { content: join_nl(st.cur), meta: code_meta(lang), sort_order: st.so },
                ),
                cur: seq![l],
                size: ls,
                so: st.so + 1,
            }
        } else {
            LinesState { chunks: st.chunks, cur: seq![l], size: ls, so: st.so }
        }
    } else {
        LinesState { chunks: st.chunks, cur: st.cur.push(l), size: st.size + ls, so: st.so }
    }
}

/// The line split over `ls`, numbering from `so0`.
pub open spec fn lines_fold(ls: Seq<Seq<char>>, so0: int, cfg: CodeSplitConfig, lang: Seq<char>) -> LinesState
    decreases ls.len(),
{
    if ls.len() == 0 {
        LinesState { chunks: Seq::empty(), cur: Seq::empty(), size: 0, so: so0 }
    } else {
        lines_step(lines_fold(ls.drop_last(), so0, cfg, lang), ls.last(), cfg, lang)
    }
}

/// The chunks of the line split of `ls`, numbered from `so0`, and the sort order
/// the split ends with (the last chunk does not advance it).
pub open spec fn lines_chunks(ls: Seq<Seq<char>>, so0: int, cfg: CodeSplitConfig, lang: Seq<char>) -> (
    Seq<ChunkView>,
    int,
) {
    let st = lines_fold(ls, so0, cfg, lang);
    if st.cur.len() > 0 {
        (
            st.chunks.push(
                ChunkView { content: join_nl(st.cur), meta: code_meta(lang), sort_order: st.so },
            ),
            st.so,
        )
    } else {
        (st.chunks, st.so)
    }
}

/// The chunks of the blocks `bs` and the sort order that follows them.
pub open spec fn blocks_chunks(bs: Seq<BlockView>, cfg: CodeSplitConfig, lang: Seq<char>) -> (
    Seq<ChunkView>,
    int,
)
    decreases bs.len(),
{
    if bs.len() == 0 {
        (Seq::empty(), 0)
    } else {
        let (done, so) = blocks_chunks(bs.drop_last(), cfg, lang);
        let b = bs.last();
        if byte_len(b.content) <= cfg.base.chunk_size {
            (
                done.push(ChunkView { content: b.content, meta: block_meta(b, lang), sort_order: so }),
                so + 1,
            )
        } else {
            let (more, so2) = lines_chunks(lines_of(b.content), so, cfg, lang);
            (done + more, so2)
        }
    }
}

/// The chunks of `code` in language `lang`, and the sort order the split ends with.
pub open spec fn code_split(code: Seq<char>, lang: Seq<char>, cfg: CodeSplitConfig) -> (
    Seq<ChunkView>,
    int,
) {
    let ls = lines_of(code);
    if ls.len() == 0 {
        (Seq::empty(), 0)
    } else if cfg.preserve_functions {
        blocks_chunks(code_blocks(ls, lang_kind(lang), cfg.base.chunk_size as int), cfg, lang)
    } else {
        lines_chunks(ls, 0, cfg, lang)
    }
}

proof fn lemma_lines_fold_so(ls: Seq<Seq<char>>, so0: int, cfg: CodeSplitConfig, lang: Seq<char>, j: int)
    requires
        0 <= j <= ls.len(),
    ensures
        so0 <= lines_fold(ls.take(j), so0, cfg, lang).so <= lines_fold(ls, so0, cfg, lang).so,
    decreases ls.len(),
{
    if j < ls.len() {
        assert(ls.drop_last().take(j) =~= ls.take(j));
        lemma_lines_fold_so(ls.drop_last(), so0, cfg, lang, j);
    } else {
        assert(ls.take(j) =~= ls);
        if ls.len() > 0 {
            lemma_lines_fold_so(ls.drop_last(), so0, cfg, lang, ls.len() - 1);
        }
    }
}

proof fn lemma_blocks_chunks_so(bs: Seq<BlockView>, cfg: CodeSplitConfig, lang: Seq<char>, j: int)
    requires
        0 <= j <= bs.len(),
    ensures
        0 <= blocks_chunks(bs.take(j), cfg, lang).1 <= blocks_chunks(bs, cfg, lang).1,
    decreases bs.len(),
{
    if bs.len() > 0 {
        let b = bs.last();
        let so = blocks_chunks(bs.drop_last(), cfg, lang).1;
        lemma_lines_fold_so(lines_of(b.content), so, cfg, lang, 0);
        if j < bs.len() {
            assert(bs.drop_last().take(j) =~= bs.take(j));
            lemma_blocks_chunks_so(bs.drop_last(), cfg, lang, j);
        } else {
            assert(bs.take(j) =~= bs);
            lemma_blocks_chunks_so(bs.drop_last(), cfg, lang, bs.len() - 1);
        }
    } else {
        assert(bs.take(j) =~= bs);
    }
}

/// The chars of the blocks `bs`, each block counted with one more.
pub open spec fn blocks_weight(bs: Seq<BlockView>) -> int
    decreases bs.len(),
{
    if bs.len() == 0 {
        0
    } else {
        blocks_weight(bs.drop_last()) + bs.last().content.len() + 1
    }
}

proof fn lemma_blocks_weight_push(bs: Seq<BlockView>, b: BlockView)
    ensures
        blocks_weight(bs.push(b)) == blocks_weight(bs) + b.content.len() + 1,
{
    assert(bs.push(b).drop_last() =~= bs);
}

proof fn lemma_push_cur_weight(bs: Seq<BlockView>, cur: Option<BlockView>)
    ensures
        blocks_weight(push_cur(bs, cur)) == blocks_weight(bs) + match cur {
            Some(b) => b.content.len() + 1,
            None => 0,
        },
{
    if let Some(b) = cur {
        lemma_blocks_weight_push(bs, b);
    }
}

/// The block search puts each line in at most one block: the blocks hold no
/// more chars than the lines, each counted with one more.
proof fn lemma_blocks_fold_weight(ls: Seq<Seq<char>>, k: LangKind, cs: int)
    ensures
        blocks_weight(push_cur(blocks_fold(ls, k, cs).blocks, blocks_fold(ls, k, cs).cur))
            <= total_len(ls) + ls.len(),
    decreases ls.len(),
{
    if ls.len() > 0 {
        lemma_blocks_fold_weight(ls.drop_last(), k, cs);
        let st = blocks_fold(ls.drop_last(), k, cs);
        let l = ls.last();
        let t = trim_seq(l);
        let st2 = blocks_step(st, l, k, cs);
        lemma_push_cur_weight(st.blocks, st.cur);
        lemma_push_cur_weight(st2.blocks, st2.cur);
        if find_def(t, k, st.in_block) is None {
            if let Some(b) = st.cur {
                lemma_blocks_weight_push(st.blocks, with_line(b, l));
            }
        }
        assert(blocks_weight(push_cur(st2.blocks, st2.cur)) <= blocks_weight(push_cur(st.blocks, st.cur))
            + l.len() + 1);
    }
}

/// The line split advances the sort order by at most one per line.
proof fn lemma_lines_fold_so_bound(ls: Seq<Seq<char>>, so0: int, cfg: CodeSplitConfig, lang: Seq<char>)
    ensures
        so0 <= lines_fold(ls, so0, cfg, lang).so <= so0 + ls.len(),
    decreases ls.len(),
{
    if ls.len() > 0 {
        lemma_lines_fold_so_bound(ls.drop_last(), so0, cfg, lang);
    }
}

/// The chunks of blocks advance the sort order by at most the blocks' weight.
proof fn lemma_blocks_chunks_bound(bs: Seq<BlockView>, cfg: CodeSplitConfig, lang: Seq<char>)
    ensures
        0 <= blocks_chunks(bs, cfg, lang).1 <= blocks_weight(bs),
    decreases bs.len(),
{
    if bs.len() > 0 {
        lemma_blocks_chunks_bound(bs.drop_last(), cfg, lang);
        let b = bs.last();
        let so = blocks_chunks(bs.drop_last(), cfg, lang).1;
        lemma_lines_weight(b.content);
        lemma_lines_fold_so_bound(lines_of(b.content), so, cfg, lang);
    }
}

/// Splitting code hands out sort orders no larger than the number of its chars
/// plus one.
pub proof fn law_code_split_count(code: Seq<char>, lang: Seq<char>, cfg: CodeSplitConfig)
    ensures
        0 <= code_split(code, lang, cfg).1 <= code.len() + 1,
{
    let ls = lines_of(code);
    lemma_lines_weight(code);
    if ls.len() > 0 {
        if cfg.preserve_functions {
            let bs = code_blocks(ls, lang_kind(lang), cfg.base.chunk_size as int);
            lemma_blocks_fold_weight(ls, lang_kind(lang), cfg.base.chunk_size as int);
            lemma_blocks_chunks_bound(bs, cfg, lang);
        } else {
            lemma_lines_fold_so_bound(ls, 0, cfg, lang);
        }
    }
}

/// Metadata of the chunks cut from code by lines.
fn code_metadata(language: &str) -> (m: ChunkMetadata)
    ensures
        m@ == code_meta(language@),
{
    let types = vec!["code".to_owned(), language.to_owned()];
    assert(strings_view(types@) =~= seq!["code"@, language@]);
    ChunkMetadata { level: None, path: None, types: Some(types) }
}

/// Metadata of the chunk of a whole block.
fn block_metadata(block: &CodeBlock, language: &str) -> (m: ChunkMetadata)
    ensures
        m@ == block_meta(block@, language@),
{
    let path = vec![block.name.clone()];
    let types = vec!["code".to_owned(), language.to_owned()];
    assert(strings_view(path@) =~= seq![block.name@]);
    assert(strings_view(types@) =~= seq!["code"@, language@]);
    ChunkMetadata { level: Some(block.level), path: Some(path), types: Some(types) }
}

/// Code splitter for source code files.
pub struct CodeSplitter {
    config: CodeSplitConfig,
}

impl CodeSplitter {
    /// The configuration in use.
    pub closed spec fn config_spec(&self) -> CodeSplitConfig {
        self.config
    }

    /// Create a new code splitter with default configuration.
    pub fn new() -> (r: Self)
        ensures
            r.config_spec().base.chunk_size == 1500,
            r.config_spec().base.chunk_overlap == 200,
            r.config_spec().base.preserve_words,
            r.config_spec().max_lines_per_chunk == 100,
            r.config_spec().preserve_functions,
    {
        CodeSplitter { config: CodeSplitConfig::default() }
    }

    /// Create a code splitter with custom configuration.
    pub fn with_config(config: CodeSplitConfig) -> (r: Self)
        ensures
            r.config_spec() == config,
    {
        CodeSplitter { config }
    }

    /// Get the configuration.
    pub fn config(&self) -> (r: &CodeSplitConfig)
        ensures
            *r == self.config_spec(),
    {
        &self.config
    }

    /// Find a function/class definition.
    fn find_definition(&self, line: &str, language: &str, in_block: bool) -> (r: Option<(String, i32)>)
        ensures
            def_view(r) == find_def(line@, lang_kind(language@), in_block),
    {
        if in_block {
            return None;
        }
        match lang_kind_of(language) {
            LangKind::Rust => self.find_rust_definition(line),
            LangKind::Python => self.find_python_definition(line),
            LangKind::Js => self.find_js_definition(line),
            LangKind::Go => self.find_go_definition(line),
            LangKind::Other => self.find_generic_definition(line),
        }
    }

    fn find_rust_definition(&self, line: &str) -> (r: Option<(String, i32)>)
        ensures
            def_view(r) == find_def(line@, LangKind::Rust, false),
    {
        let (p, l) = patterns_for(LangKind::Rust);
        search_patterns(line, &p, &l, LangKind::Rust)
    }

    fn find_python_definition(&self, line: &str) -> (r: Option<(String, i32)>)
        ensures
            def_view(r) == find_def(line@, LangKind::Python, false),
    {
        let (p, l) = patterns_for(LangKind::Python);
        search_patterns(line, &p, &l, LangKind::Python)
    }

    fn find_js_definition(&self, line: &str) -> (r: Option<(String, i32)>)
        ensures
            def_view(r) == find_def(line@, LangKind::Js, false),
    {
        let (p, l) = patterns_for(LangKind::Js);
        search_patterns(line, &p, &l, LangKind::Js)
    }

    fn find_go_definition(&self, line: &str) -> (r: Option<(String, i32)>)
        ensures
            def_view(r) == find_def(line@, LangKind::Go, false),
    {
        let (p, l) = patterns_for(LangKind::Go);
        search_patterns(line, &p, &l, LangKind::Go)
    }

    fn find_generic_definition(&self, line: &str) -> (r: Option<(String, i32)>)
        ensures
            def_view(r) == find_def(line@, LangKind::Other, false),
    {
        let (p, l) = patterns_for(LangKind::Other);
        search_patterns(line, &p, &l, LangKind::Other)
    }

    /// Count braces in a line: opening ones minus closing ones.
    fn count_braces(&self, line: &Vec<char>) -> (r: i32)
        requires
            line.len() <= i32::MAX,
        ensures
            r == brace_delta(line@),
            -line.len() <= r <= line.len(),
    {
        let open = count_chars(line, '{');
        let close = count_chars(line, '}');
        open as i32 - close as i32
    }

    /// Check if this (trimmed) line ends a code block.
    fn is_block_end(&self, line: &Vec<char>, language: &str) -> (b: bool)
        ensures
            b == is_block_end(line@, lang_kind(language@)),
    {
        match lang_kind_of(language) {
            LangKind::Python => {
                let d = chars_of("def ");
                let c = chars_of("class ");
                let a = chars_of("@");
                matches_at(line, &d, 0) || matches_at(line, &c, 0) || matches_at(line, &a, 0)
            },
            _ => {
                let t = trim_chars(line);
                t.len() > 0 && t[0] == '}'
            },
        }
    }

    /// Find code blocks (functions, classes, etc.).
    fn find_code_blocks(&self, lines: &Vec<Vec<char>>, language: &str) -> (r: Vec<CodeBlock>)
        requires
            total_len(vviews(lines@)) <= i32::MAX,
        ensures
            blocks_view(r@) == code_blocks(
                vviews(lines@),
                lang_kind(language@),
                self.config.base.chunk_size as int,
            ),
    {
        let ghost lv = vviews(lines@);
        let ghost k = lang_kind(language@);
        let ghost cs = self.config.base.chunk_size as int;
        let mut blocks: Vec<CodeBlock> = Vec::new();
        let mut cur: Option<CodeBlock> = None;
        let mut brace: i32 = 0;
        let mut in_block = false;
        let mut j: usize = 0;
        assert(lv.take(0) =~= Seq::<Seq<char>>::empty());
        assert(blocks_view(blocks@) =~= Seq::<BlockView>::empty());
        while j < lines.len()
            invariant
                j <= lines.len(),
                lv == vviews(lines@),
                total_len(lv) <= i32::MAX,
                k == lang_kind(language@),
                cs == self.config.base.chunk_size as int,
                blocks_view(blocks@) == blocks_fold(lv.take(j as int), k, cs).blocks,
                cur_view(cur) == blocks_fold(lv.take(j as int), k, cs).cur,
                brace as int == blocks_fold(lv.take(j as int), k, cs).brace,
                in_block == blocks_fold(lv.take(j as int), k, cs).in_block,
                -total_len(lv.take(j as int)) <= brace <= total_len(lv.take(j as int)),
            decreases lines.len() - j,
        {
            proof {
                lemma_total_len_prefix(lv, j as int);
                lemma_total_len_prefix(lv, j as int + 1);
                assert(lv.take(j + 1).drop_last() =~= lv.take(j as int));
                assert(lv.take(j + 1).last() == lines@[j as int]@);
            }
            let line = &lines[j];
            let t = trim_chars(line);
            let ts = string_from_chars(&t);
            let def = self.find_definition(ts.as_str(), language, in_block);
            let ghost old_b = blocks_view(blocks@);
            match def {
                Some((name, level)) => {
                    match cur {
                        Some(b) => {
                            blocks.push(b);
                            assert(blocks_view(blocks@) =~= old_b.push(b@));
                        },
                        None => {},
                    }
                    brace = self.count_braces(&t);
                    cur = Some(CodeBlock { name, level, content: copy_chars(line) });
                    in_block = true;
                },
                None => {
                    if in_block {
                        match cur {
                            Some(mut b) => {
                                let ghost bc = b.content@;
                                b.content.push('\n');
                                append_all(&mut b.content, line);
                                assert(b.content@ =~= bc + seq!['\n'] + line@);
                                let d = self.count_braces(&t);
                                brace = brace + d;
                                if brace == 0 && self.is_block_end(&t, language) {
                                    blocks.push(b);
                                    assert(blocks_view(blocks@) =~= old_b.push(b@));
                                    cur = None;
                                    in_block = false;
                                } else {
                                    cur = Some(b);
                                }
                            },
                            None => {
                                cur = None;
                            },
                        }
                    } else {
                        match cur {
                            None => {
                                cur = Some(
                                    CodeBlock {
                                        name: "module".to_owned(),
                                        level: 0,
                                        content: copy_chars(line),
                                    },
                                );
                            },
                            Some(mut b) => {
                                let ghost bc = b.content@;
                                b.content.push('\n');
                                append_all(&mut b.content, line);
                                assert(b.content@ =~= bc + seq!['\n'] + line@);
                                let n = byte_count(&b.content, 0, b.content.len());
                                assert(b.content@.subrange(0, b.content.len() as int) =~= b.content@);
                                if n > self.config.base.chunk_size as u128 {
                                    blocks.push(b);
                                    assert(blocks_view(blocks@) =~= old_b.push(b@));
                                    cur = None;
                                } else {
                                    cur = Some(b);
                                }
                            },
                        }
                    }
                },
            }
            j = j + 1;
        }
        assert(lv.take(lines.len() as int) =~= lv);
        let ghost old_b = blocks_view(blocks@);
        match cur {
            Some(b) => {
                blocks.push(b);
                assert(blocks_view(blocks@) =~= old_b.push(b@));
            },
            None => {},
        }
        blocks
    }

    /// Split code by lines.
    fn split_by_lines(&self, lines: &Vec<Vec<char>>, sort_order: &mut i32, language: &str) -> (r: Vec<
        TextChunk,
    >)
        requires
            lines_chunks(vviews(lines@), *old(sort_order) as int, self.config, language@).1
                <= i32::MAX,
        ensures
            chunk_views(r@) == lines_chunks(
                vviews(lines@),
                *old(sort_order) as int,
                self.config,
                language@,
            ).0,
            *final(sort_order) as int == lines_chunks(
                vviews(lines@),
                *old(sort_order) as int,
                self.config,
                language@,
            ).1,
    {
        let ghost lv = vviews(lines@);
        let ghost so0 = *sort_order as int;
        let ghost cfg = self.config;
        let mut chunks: Vec<TextChunk> = Vec::new();
        let mut cur_lines: Vec<Vec<char>> = Vec::new();
        let mut cur_size: u128 = 0;
        let cs = self.config.base.chunk_size as u128;
        let mut j: usize = 0;
        assert(lv.take(0) =~= Seq::<Seq<char>>::empty());
        assert(chunk_views(chunks@) =~= Seq::<ChunkView>::empty());
        assert(vviews(cur_lines@) =~= Seq::<Seq<char>>::empty());
        while j < lines.len()
            invariant
                j <= lines.len(),
                lv == vviews(lines@),
                cfg == self.config,
                cs == cfg.base.chunk_size,
                lines_fold(lv, so0, cfg, language@).so <= i32::MAX,
                chunk_views(chunks@) == lines_fold(lv.take(j as int), so0, cfg, language@).chunks,
                vviews(cur_lines@) == lines_fold(lv.take(j as int), so0, cfg, language@).cur,
                cur_size as int == lines_fold(lv.take(j as int), so0, cfg, language@).size,
                *sort_order as int == lines_fold(lv.take(j as int), so0, cfg, language@).so,
                cur_size <= cs + 4 * usize::MAX + 1,
            decreases lines.len() - j,
        {
            proof {
                lemma_lines_fold_so(lv, so0, cfg, language@, j as int + 1);
                assert(lv.take(j + 1).drop_last() =~= lv.take(j as int));
                assert(lv.take(j + 1).last() == lines@[j as int]@);
                lemma_byte_len_le_len(lines@[j as int]@);
            }
            let line = &lines[j];
            let n = byte_count(line, 0, line.len());
            assert(line@.subrange(0, line.len() as int) =~= line@);
            let ls = n + 1;
            if cur_size + ls > cs || cur_lines.len() >= self.config.max_lines_per_chunk {
                if cur_lines.len() > 0 {
                    let content = string_from_chars(&join_lines(&cur_lines));
                    let chunk = TextChunk::new(content, code_metadata(language), *sort_order);
                    let ghost old_c = chunk_views(chunks@);
                    let ghost cv = chunk@;
                    chunks.push(chunk);
                    assert(chunk_views(chunks@) =~= old_c.push(cv));
                    *sort_order = *sort_order + 1;
                }
                cur_lines = Vec::new();
                cur_size = 0;
            }
            let ghost old_l = vviews(cur_lines@);
            cur_lines.push(copy_chars(line));
            assert(vviews(cur_lines@) =~= old_l.push(line@));
            cur_size = cur_size + ls;
            j = j + 1;
        }
        assert(lv.take(lines.len() as int) =~= lv);
        if cur_lines.len() > 0 {
            let content = string_from_chars(&join_lines(&cur_lines));
            let chunk = TextChunk::new(content, code_metadata(language), *sort_order);
            let ghost old_c = chunk_views(chunks@);
            let ghost cv = chunk@;
            chunks.push(chunk);
            assert(chunk_views(chunks@) =~= old_c.push(cv));
        }
        chunks
    }

    /// Split a large code block by lines.
    fn split_large_block(&self, block: &CodeBlock, sort_order: &mut i32, language: &str) -> (r: Vec<
        TextChunk,
    >)
        requires
            lines_chunks(lines_of(block.content@), *old(sort_order) as int, self.config, language@).1
                <= i32::MAX,
        ensures
            chunk_views(r@) == lines_chunks(
                lines_of(block.content@),
                *old(sort_order) as int,
                self.config,
                language@,
            ).0,
            *final(sort_order) as int == lines_chunks(
                lines_of(block.content@),
                *old(sort_order) as int,
                self.config,
                language@,
            ).1,
    {
        let lines = split_lines(&block.content);
        self.split_by_lines(&lines, sort_order, language)
    }

    /// Split code into chunks. Code of fewer than `i32::MAX` chars meets the
    /// `requires` (see `law_code_split_count`).
    pub fn split(&self, code: &str, language: &str) -> (r: Vec<TextChunk>)
        requires
            self.config_spec().preserve_functions ==> code@.len() <= i32::MAX,
            code_split(code@, language@, self.config_spec()).1 <= i32::MAX,
        ensures
            chunk_views(r@) == code_split(code@, language@, self.config_spec()).0,
    {
        let chars = chars_of(code);
        let lines = split_lines(&chars);
        let mut chunks: Vec<TextChunk> = Vec::new();
        if lines.len() == 0 {
            assert(chunk_views(chunks@) =~= Seq::<ChunkView>::empty());
            return chunks;
        }
        let mut sort_order: i32 = 0;
        if self.config.preserve_functions {
            proof {
                lemma_lines_total(code@);
            }
            let blocks = self.find_code_blocks(&lines, language);
            let ghost bv = blocks_view(blocks@);
            let ghost cfg = self.config;
            let mut j: usize = 0;
            assert(bv.take(0) =~= Seq::<BlockView>::empty());
            assert(chunk_views(chunks@) =~= Seq::<ChunkView>::empty());
            while j < blocks.len()
                invariant
                    j <= blocks.len(),
                    bv == blocks_view(blocks@),
                    cfg == self.config,
                    blocks_chunks(bv, cfg, language@).1 <= i32::MAX,
                    chunk_views(chunks@) == blocks_chunks(bv.take(j as int), cfg, language@).0,
                    sort_order as int == blocks_chunks(bv.take(j as int), cfg, language@).1,
                decreases blocks.len() - j,
            {
                proof {
                    lemma_blocks_chunks_so(bv, cfg, language@, j as int + 1);
                    assert(bv.take(j + 1).drop_last() =~= bv.take(j as int));
                    assert(bv.take(j + 1).last() == blocks@[j as int]@);
                }
                let block = &blocks[j];
                let n = byte_count(&block.content, 0, block.content.len());
                assert(block.content@.subrange(0, block.content.len() as int) =~= block.content@);
                if n <= self.config.base.chunk_size as u128 {
                    let chunk = TextChunk::new(
                        string_from_chars(&block.content),
                        block_metadata(block, language),
                        sort_order,
                    );
                    let ghost old_c = chunk_views(chunks@);
                    let ghost cv = chunk@;
                    chunks.push(chunk);
                    assert(chunk_views(chunks@) =~= old_c.push(cv));
                    sort_order = sort_order + 1;
                } else {
                    let mut sub = self.split_large_block(block, &mut sort_order, language);
                    let ghost old_c = chunk_views(chunks@);
                    let ghost sv = chunk_views(sub@);
                    chunks.append(&mut sub);
                    assert(chunk_views(chunks@) =~= old_c + sv);
                }
                j = j + 1;
            }
            assert(bv.take(blocks.len() as int) =~= bv);
        } else {
            chunks = self.split_by_lines(&lines, &mut sort_order, language);
        }
        chunks
    }
}

/// The contents of the blocks `bs`.
pub open spec fn block_texts(bs: Seq<BlockView>) -> Seq<Seq<char>> {
    bs.map_values(|b: BlockView| b.content)
}

/// A block is a definition (level one or more) or gathered "module" code (level 0).
pub open spec fn block_kind_ok(b: BlockView) -> bool {
    b.level >= 1 || (b.level == 0 && b.name == "module"@)
}

proof fn lemma_join_nl_push(xs: Seq<Seq<char>>, y: Seq<char>)
    requires
        xs.len() > 0,
    ensures
        join_nl(xs.push(y)) == join_nl(xs) + seq!['\n'] + y,
{
    assert(xs.push(y).drop_last() =~= xs);
}

proof fn lemma_join_nl_extend_last(xs: Seq<Seq<char>>, l: Seq<char>)
    requires
        xs.len() > 0,
    ensures
        join_nl(xs.drop_last().push(xs.last() + seq!['\n'] + l)) == join_nl(xs) + seq!['\n'] + l,
{
    let ys = xs.drop_last().push(xs.last() + seq!['\n'] + l);
    if xs.len() == 1 {
        assert(ys.len() == 1);
    } else {
        assert(ys.drop_last() =~= xs.drop_last());
        assert(join_nl(ys) == join_nl(xs.drop_last()) + seq!['\n'] + (xs.last() + seq!['\n'] + l));
        assert(join_nl(xs) == join_nl(xs.drop_last()) + seq!['\n'] + xs.last());
        assert(join_nl(ys) =~= join_nl(xs) + seq!['\n'] + l);
    }
}

proof fn lemma_def_search_level(line: Seq<char>, pats: Seq<Seq<char>>, levels: Seq<i32>, k: LangKind, i: int)
    requires
        pats.len() <= levels.len(),
        forall|j: int| 0 <= j < levels.len() ==> levels[j] >= 1,
    ensures
        def_search(line, pats, levels, k, i) matches Some((_, lv)) ==> lv >= 1,
    decreases pats.len() - i,
{
    if 0 <= i < pats.len() {
        lemma_def_search_level(line, pats, levels, k, i + 1);
    }
}

/// A definition found on a line has level one or more.
proof fn lemma_find_def_level(line: Seq<char>, k: LangKind, in_block: bool)
    ensures
        find_def(line, k, in_block) matches Some((_, lv)) ==> lv >= 1,
{
    let levels = levels_of(k);
    assert forall|j: int| 0 <= j < levels.len() implies levels[j] >= 1 by {
        match k {
            LangKind::Rust => {},
            LangKind::Python => {},
            LangKind::Js => {},
            LangKind::Go => {},
            LangKind::Other => {},
        }
    }
    lemma_def_search_level(line, patterns_of(k), levels, k, 0);
}

proof fn lemma_blocks_fold_parts(ls: Seq<Seq<char>>, k: LangKind, cs: int)
    ensures
        ({
            let st = blocks_fold(ls, k, cs);
            let bs = push_cur(st.blocks, st.cur);
            &&& st.in_block ==> st.cur is Some
            &&& (bs.len() == 0 <==> ls.len() == 0)
            &&& join_nl(block_texts(bs)) == join_nl(ls)
            &&& forall|j: int| 0 <= j < bs.len() ==> block_kind_ok(#[trigger] bs[j])
        }),
    decreases ls.len(),
{
    if ls.len() > 0 {
        lemma_blocks_fold_parts(ls.drop_last(), k, cs);
        let st = blocks_fold(ls.drop_last(), k, cs);
        let bs = push_cur(st.blocks, st.cur);
        let l = ls.last();
        let t = trim_seq(l);
        let st2 = blocks_step(st, l, k, cs);
        let bs2 = push_cur(st2.blocks, st2.cur);
        lemma_find_def_level(t, k, st.in_block);
        if ls.len() > 1 {
            lemma_join_nl_push(ls.drop_last(), l);
            assert(ls.drop_last().push(l) =~= ls);
        } else {
            assert(join_nl(ls) == l);
        }
        match find_def(t, k, st.in_block) {
            Some((n, lv)) => {
                let nb = BlockView { name: n, level: lv, content: l };
                assert(bs2 =~= bs.push(nb));
                assert(block_texts(bs2) =~= block_texts(bs).push(l));
                if bs.len() > 0 {
                    lemma_join_nl_push(block_texts(bs), l);
                } else {
                    assert(block_texts(bs2) =~= seq![l]);
                }
                assert forall|j: int| 0 <= j < bs2.len() implies block_kind_ok(#[trigger] bs2[j]) by {
                    if j < bs.len() {
                        assert(bs2[j] == bs[j]);
                    }
                }
            },
            None => {
                match st.cur {
                    Some(b) => {
                        let nb = with_line(b, l);
                        assert(bs =~= st.blocks.push(b));
                        assert(bs2 =~= st.blocks.push(nb));
                        let xs = block_texts(bs);
                        assert(block_texts(bs2) =~= xs.drop_last().push(xs.last() + seq!['\n'] + l));
                        lemma_join_nl_extend_last(xs, l);
                        assert forall|j: int| 0 <= j < bs2.len() implies block_kind_ok(#[trigger] bs2[j]) by {
                            if j < bs.len() - 1 {
                                assert(bs2[j] == bs[j]);
                            } else {
                                assert(bs[j] == b);
                            }
                        }
                    },
                    None => {
                        let nb = BlockView { name: "module"@, level: 0, content: l };
                        assert(bs == st.blocks);
                        assert(bs2 =~= bs.push(nb));
                        assert(block_texts(bs2) =~= block_texts(bs).push(l));
                        if bs.len() > 0 {
                            lemma_join_nl_push(block_texts(bs), l);
                        } else {
                            assert(block_texts(bs2) =~= seq![l]);
                        }
                        assert forall|j: int| 0 <= j < bs2.len() implies block_kind_ok(#[trigger] bs2[j]) by {
                            if j < bs.len() {
                                assert(bs2[j] == bs[j]);
                            }
                        }
                    },
                }
            },
        }
    }
}

/// The code blocks partition the lines: their contents, joined with line breaks,
/// give back the lines joined with line breaks, none lost or repeated, in order;
/// and each block is a definition of level one or more or "module" code of level 0.
pub proof fn law_code_blocks_partition(ls: Seq<Seq<char>>, k: LangKind, cs: int)
    ensures
        join_nl(block_texts(code_blocks(ls, k, cs))) == join_nl(ls),
        forall|j: int|
            0 <= j < code_blocks(ls, k, cs).len() ==> block_kind_ok(#[trigger] code_blocks(ls, k, cs)[j]),
{
    lemma_blocks_fold_parts(ls, k, cs);
}

/// The contents of the chunks `cs`.
pub open spec fn chunk_texts(cs: Seq<ChunkView>) -> Seq<Seq<char>> {
    cs.map_values(|c: ChunkView| c.content)
}

/// The texts the line split has made or is making: its chunks', then the lines
/// it is gathering, joined.
pub open spec fn lines_state_texts(st: LinesState) -> Seq<Seq<char>> {
    if st.cur.len() > 0 {
        chunk_texts(st.chunks).push(join_nl(st.cur))
    } else {
        chunk_texts(st.chunks)
    }
}

proof fn lemma_lines_fold_join(ls: Seq<Seq<char>>, so0: int, cfg: CodeSplitConfig, lang: Seq<char>)
    ensures
        ({
            let st = lines_fold(ls, so0, cfg, lang);
            &&& (st.cur.len() == 0 <==> ls.len() == 0)
            &&& (st.cur.len() == 0 ==> st.chunks.len() == 0)
            &&& join_nl(lines_state_texts(st)) == join_nl(ls)
        }),
    decreases ls.len(),
{
    if ls.len() > 0 {
        lemma_lines_fold_join(ls.drop_last(), so0, cfg, lang);
        let st = lines_fold(ls.drop_last(), so0, cfg, lang);
        let l = ls.last();
        let st2 = lines_step(st, l, cfg, lang);
        let xs = lines_state_texts(st);
        if ls.len() > 1 {
            lemma_join_nl_push(ls.drop_last(), l);
            assert(ls.drop_last().push(l) =~= ls);
        } else {
            assert(join_nl(ls) == l);
        }
        if st.cur.len() == 0 {
            assert(st.chunks.len() == 0);
            assert(chunk_texts(st2.chunks) =~= Seq::<Seq<char>>::empty());
            assert(st2.cur =~= seq![l]);
            assert(lines_state_texts(st2) =~= seq![join_nl(seq![l])]);
            assert(join_nl(seq![l]) == l);
            assert(ls.len() == 1);
        } else {
            let ls_ = byte_len(l) + 1int;
            if st.size + ls_ > cfg.base.chunk_size || st.cur.len() >= cfg.max_lines_per_chunk {
                assert(chunk_texts(st2.chunks) =~= chunk_texts(st.chunks).push(join_nl(st.cur)));
                assert(st2.cur =~= seq![l]);
                assert(join_nl(seq![l]) == l);
                assert(lines_state_texts(st2) =~= xs.push(l));
                lemma_join_nl_push(xs, l);
            } else {
                assert(st2.cur =~= st.cur.push(l));
                lemma_join_nl_push(st.cur, l);
                assert(lines_state_texts(st2) =~= xs.drop_last().push(xs.last() + seq!['\n'] + l));
                lemma_join_nl_extend_last(xs, l);
            }
        }
    }
}

/// The chunks of a line split, joined with line breaks, give back the lines
/// joined with line breaks.
proof fn lemma_lines_chunks_join(ls: Seq<Seq<char>>, so0: int, cfg: CodeSplitConfig, lang: Seq<char>)
    ensures
        join_nl(chunk_texts(lines_chunks(ls, so0, cfg, lang).0)) == join_nl(ls),
        ls.len() > 0 ==> chunk_texts(lines_chunks(ls, so0, cfg, lang).0).len() > 0,
{
    lemma_lines_fold_join(ls, so0, cfg, lang);
    let st = lines_fold(ls, so0, cfg, lang);
    if st.cur.len() > 0 {
        assert(chunk_texts(lines_chunks(ls, so0, cfg, lang).0) =~= lines_state_texts(st));
    } else {
        assert(chunk_texts(lines_chunks(ls, so0, cfg, lang).0) =~= lines_state_texts(st));
    }
}

/// Lines fit to be joined and split again: each is non-empty and holds no line
/// break or carriage return.
pub open spec fn plain_lines(xs: Seq<Seq<char>>) -> bool {
    forall|j: int|
        0 <= j < xs.len() ==> #[trigger] xs[j].len() > 0 && !xs[j].contains('\n') && !xs[j].contains('\r')
}

proof fn lemma_lines_acc_plain(s: Seq<char>, start: int, i: int)
    requires
        0 <= start <= i <= s.len(),
        forall|k: int| start <= k < i ==> s[k] != '\n',
        forall|k: int| 0 <= k < s.len() ==> s[k] != '\r',
    ensures
        forall|j: int|
            0 <= j < lines_acc(s, start, i).len() ==> !(#[trigger] lines_acc(s, start, i)[j]).contains('\n')
                && !lines_acc(s, start, i)[j].contains('\r'),
    decreases s.len() - i,
{
    let r = lines_acc(s, start, i);
    if i >= s.len() {
        if start < s.len() {
            let x = s.subrange(start, s.len() as int);
            assert(r == seq![x]);
            assert(r[0] == x);
            assert(!x.contains('\n')) by {
                assert forall|k: int| 0 <= k < x.len() implies x[k] != '\n' by {
                    assert(x[k] == s[start + k]);
                }
            }
            assert(!x.contains('\r')) by {
                assert forall|k: int| 0 <= k < x.len() implies x[k] != '\r' by {
                    assert(x[k] == s[start + k]);
                }
            }
        }
    } else if s[i] == '\n' {
        let e = if i > start && s[i - 1] == '\r' {
            i - 1
        } else {
            i
        };
        let x = s.subrange(start, e);
        lemma_lines_acc_plain(s, i + 1, i + 1);
        let rest = lines_acc(s, i + 1, i + 1);
        assert(r == seq![x] + rest);
        assert(!x.contains('\n')) by {
            assert forall|k: int| 0 <= k < x.len() implies x[k] != '\n' by {
                assert(x[k] == s[start + k]);
            }
        }
        assert(!x.contains('\r')) by {
            assert forall|k: int| 0 <= k < x.len() implies x[k] != '\r' by {
                assert(x[k] == s[start + k]);
            }
        }
        assert forall|j: int| 0 <= j < r.len() implies !(#[trigger] r[j]).contains('\n') && !r[j].contains('\r') by {
            if j > 0 {
                assert(r[j] == rest[j - 1]);
            }
        }
    } else {
        lemma_lines_acc_plain(s, start, i + 1);
        assert(r == lines_acc(s, start, i + 1));
    }
}

proof fn lemma_join_nl_first(xs: Seq<Seq<char>>)
    requires
        xs.len() >= 2,
    ensures
        join_nl(xs) == xs[0] + seq!['\n'] + join_nl(xs.drop_first()),
    decreases xs.len(),
{
    assert(join_nl(xs) == join_nl(xs.drop_last()) + seq!['\n'] + xs.last());
    if xs.len() == 2 {
        assert(xs.drop_last() =~= seq![xs[0]]);
        assert(xs.drop_first() =~= seq![xs[1]]);
        assert(join_nl(seq![xs[0]]) == xs[0]);
        assert(join_nl(seq![xs[1]]) == xs[1]);
        assert(join_nl(xs) =~= xs[0] + seq!['\n'] + join_nl(xs.drop_first()));
    } else {
        lemma_join_nl_first(xs.drop_last());
        let d = xs.drop_first();
        assert(xs.drop_last().drop_first() =~= d.drop_last());
        assert(d.last() == xs.last());
        assert(join_nl(d) == join_nl(d.drop_last()) + seq!['\n'] + d.last());
        assert(xs.drop_last()[0] == xs[0]);
        assert(join_nl(xs) =~= xs[0] + seq!['\n'] + join_nl(xs.drop_first()));
    }
}

proof fn lemma_lines_acc_scan(s: Seq<char>, start: int, i: int, j: int)
    requires
        0 <= start <= i <= j <= s.len(),
        forall|k: int| start <= k < j ==> s[k] != '\n',
    ensures
        lines_acc(s, start, i) == lines_acc(s, start, j),
    decreases j - i,
{
    if i < j {
        lemma_lines_acc_scan(s, start, i + 1, j);
    }
}

/// Splitting plain lines joined with line breaks gives them back.
proof fn lemma_lines_acc_join(s: Seq<char>, start: int, xs: Seq<Seq<char>>)
    requires
        0 <= start <= s.len(),
        xs.len() > 0,
        plain_lines(xs),
        s.subrange(start, s.len() as int) == join_nl(xs),
    ensures
        lines_acc(s, start, start) == xs,
    decreases xs.len(),
{
    let x0 = xs[0];
    let j = start + x0.len();
    if xs.len() == 1 {
        assert(join_nl(xs) == x0);
        assert(j == s.len());
        assert forall|k: int| start <= k < j implies s[k] != '\n' by {
            assert(s[k] == s.subrange(start, s.len() as int)[k - start]);
            assert(!x0.contains('\n'));
        }
        lemma_lines_acc_scan(s, start, start, j);
        assert(s.subrange(start, s.len() as int) =~= x0);
        assert(lines_acc(s, start, j) =~= seq![x0]);
    } else {
        lemma_join_nl_first(xs);
        let t = s.subrange(start, s.len() as int);
        assert(t == x0 + seq!['\n'] + join_nl(xs.drop_first()));
        assert forall|k: int| start <= k < j implies s[k] != '\n' by {
            assert(s[k] == t[k - start]);
            assert(t[k - start] == x0[k - start]);
            assert(!x0.contains('\n'));
        }
        lemma_lines_acc_scan(s, start, start, j);
        assert(s[j] == t[x0.len() as int]);
        assert(s[j] == '\n');
        assert(x0.len() > 0);
        assert(s[j - 1] == t[x0.len() - 1]);
        assert(t[x0.len() - 1] == x0[x0.len() - 1]);
        assert(s[j - 1] != '\r') by {
            assert(!x0.contains('\r'));
        }
        assert(s.subrange(start, j) =~= x0);
        assert(t.subrange(x0.len() as int + 1, t.len() as int) =~= join_nl(xs.drop_first()));
        assert(s.subrange(j + 1, s.len() as int) =~= t.subrange(x0.len() as int + 1, t.len() as int));
        assert(plain_lines(xs.drop_first())) by {
            assert forall|q: int| 0 <= q < xs.drop_first().len() implies #[trigger] xs.drop_first()[q].len() > 0
                && !xs.drop_first()[q].contains('\n') && !xs.drop_first()[q].contains('\r') by {
                assert(xs.drop_first()[q] == xs[q + 1]);
            }
        }
        lemma_lines_acc_join(s, j + 1, xs.drop_first());
        assert(lines_acc(s, start, j) == seq![x0] + lines_acc(s, j + 1, j + 1));
        assert(seq![x0] + xs.drop_first() =~= xs);
    }
}

/// Splitting plain lines joined with line breaks gives them back.
proof fn lemma_lines_of_join(xs: Seq<Seq<char>>)
    requires
        xs.len() > 0,
        plain_lines(xs),
    ensures
        lines_of(join_nl(xs)) == xs,
{
    let s = join_nl(xs);
    assert(s.subrange(0, s.len() as int) =~= s);
    lemma_lines_acc_join(s, 0, xs);
}

/// A block whose content is plain lines joined with line breaks.
pub open spec fn block_plain(b: BlockView) -> bool {
    &&& lines_of(b.content).len() > 0
    &&& plain_lines(lines_of(b.content))
    &&& join_nl(lines_of(b.content)) == b.content
}

proof fn lemma_line_plain(l: Seq<char>)
    requires
        l.len() > 0,
        !l.contains('\n'),
        !l.contains('\r'),
    ensures
        lines_of(l) == seq![l],
{
    let xs = seq![l];
    assert(join_nl(xs) == l);
    assert(plain_lines(xs)) by {
        assert forall|j: int| 0 <= j < xs.len() implies #[trigger] xs[j].len() > 0 && !xs[j].contains('\n')
            && !xs[j].contains('\r') by {
            assert(xs[j] == l);
        }
    }
    lemma_lines_of_join(xs);
}

proof fn lemma_plain_push(xs: Seq<Seq<char>>, l: Seq<char>)
    requires
        plain_lines(xs),
        l.len() > 0,
        !l.contains('\n'),
        !l.contains('\r'),
    ensures
        plain_lines(xs.push(l)),
{
    let ys = xs.push(l);
    assert forall|j: int| 0 <= j < ys.len() implies #[trigger] ys[j].len() > 0 && !ys[j].contains('\n')
        && !ys[j].contains('\r') by {
        if j < xs.len() {
            assert(ys[j] == xs[j]);
        }
    }
}

proof fn lemma_blocks_fold_plain(ls: Seq<Seq<char>>, k: LangKind, cs: int)
    requires
        plain_lines(ls),
    ensures
        forall|j: int|
            0 <= j < push_cur(blocks_fold(ls, k, cs).blocks, blocks_fold(ls, k, cs).cur).len() ==> block_plain(
                #[trigger] push_cur(blocks_fold(ls, k, cs).blocks, blocks_fold(ls, k, cs).cur)[j],
            ),
    decreases ls.len(),
{
    if ls.len() > 0 {
        let d = ls.drop_last();
        assert(plain_lines(d)) by {
            assert forall|j: int| 0 <= j < d.len() implies #[trigger] d[j].len() > 0 && !d[j].contains('\n')
                && !d[j].contains('\r') by {
                assert(d[j] == ls[j]);
            }
        }
        lemma_blocks_fold_plain(d, k, cs);
        lemma_blocks_fold_parts(d, k, cs);
        let st = blocks_fold(d, k, cs);
        let bs = push_cur(st.blocks, st.cur);
        let l = ls.last();
        assert(l == ls[ls.len() - 1]);
        let t = trim_seq(l);
        let st2 = blocks_step(st, l, k, cs);
        let bs2 = push_cur(st2.blocks, st2.cur);
        lemma_line_plain(l);
        match find_def(t, k, st.in_block) {
            Some((n, lv)) => {
                let nb = BlockView { name: n, level: lv, content: l };
                assert(bs2 =~= bs.push(nb));
                assert(join_nl(seq![l]) == l);
                assert forall|j: int| 0 <= j < bs2.len() implies block_plain(#[trigger] bs2[j]) by {
                    if j < bs.len() {
                        assert(bs2[j] == bs[j]);
                    }
                }
            },
            None => {
                match st.cur {
                    Some(b) => {
                        let nb = with_line(b, l);
                        assert(bs =~= st.blocks.push(b));
                        assert(bs2 =~= st.blocks.push(nb));
                        assert(block_plain(b)) by {
                            assert(bs[bs.len() - 1] == b);
                        }
                        let xs = lines_of(b.content);
                        lemma_plain_push(xs, l);
                        lemma_join_nl_push(xs, l);
                        lemma_lines_of_join(xs.push(l));
                        assert forall|j: int| 0 <= j < bs2.len() implies block_plain(#[trigger] bs2[j]) by {
                            if j < bs.len() - 1 {
                                assert(bs2[j] == bs[j]);
                            }
                        }
                    },
                    None => {
                        let nb = BlockView { name: "module"@, level: 0, content: l };
                        assert(bs == st.blocks);
                        assert(bs2 =~= bs.push(nb));
                        assert(join_nl(seq![l]) == l);
                        assert forall|j: int| 0 <= j < bs2.len() implies block_plain(#[trigger] bs2[j]) by {
                            if j < bs.len() {
                                assert(bs2[j] == bs[j]);
                            }
                        }
                    },
                }
            },
        }
    }
}

proof fn lemma_join_nl_concat(a: Seq<Seq<char>>, b: Seq<Seq<char>>)
    requires
        a.len() > 0,
        b.len() > 0,
    ensures
        join_nl(a + b) == join_nl(a) + seq!['\n'] + join_nl(b),
    decreases b.len(),
{
    if b.len() == 1 {
        assert(a + b =~= a.push(b[0]));
        lemma_join_nl_push(a, b[0]);
        assert(join_nl(b) == b[0]);
    } else {
        lemma_join_nl_concat(a, b.drop_last());
        assert((a + b).drop_last() =~= a + b.drop_last());
        assert((a + b).len() >= 2);
        assert(join_nl(a + b) == join_nl((a + b).drop_last()) + seq!['\n'] + (a + b).last());
        assert(join_nl(b) == join_nl(b.drop_last()) + seq!['\n'] + b.last());
        assert(join_nl(a + b) =~= join_nl(a) + seq!['\n'] + join_nl(b));
    }
}

proof fn lemma_blocks_chunks_join(bs: Seq<BlockView>, cfg: CodeSplitConfig, lang: Seq<char>)
    requires
        forall|j: int| 0 <= j < bs.len() ==> block_plain(#[trigger] bs[j]),
    ensures
        join_nl(chunk_texts(blocks_chunks(bs, cfg, lang).0)) == join_nl(block_texts(bs)),
        (chunk_texts(blocks_chunks(bs, cfg, lang).0).len() == 0 <==> bs.len() == 0),
    decreases bs.len(),
{
    if bs.len() > 0 {
        let d = bs.drop_last();
        assert forall|j: int| 0 <= j < d.len() implies block_plain(#[trigger] d[j]) by {
            assert(d[j] == bs[j]);
        }
        lemma_blocks_chunks_join(d, cfg, lang);
        let (done, so) = blocks_chunks(d, cfg, lang);
        let b = bs.last();
        assert(block_plain(b)) by {
            assert(bs[bs.len() - 1] == b);
        }
        let dt = chunk_texts(done);
        assert(block_texts(bs) =~= block_texts(d).push(b.content));
        let more = if byte_len(b.content) <= cfg.base.chunk_size {
            seq![ChunkView { content: b.content, meta: block_meta(b, lang), sort_order: so }]
        } else {
            lines_chunks(lines_of(b.content), so, cfg, lang).0
        };
        assert(blocks_chunks(bs, cfg, lang).0 == done + more);
        assert(chunk_texts(done + more) =~= dt + chunk_texts(more));
        if byte_len(b.content) <= cfg.base.chunk_size {
            assert(chunk_texts(more) =~= seq![b.content]);
        } else {
            lemma_lines_chunks_join(lines_of(b.content), so, cfg, lang);
        }
        assert(join_nl(chunk_texts(more)) == b.content);
        assert(chunk_texts(more).len() > 0);
        if d.len() == 0 {
            assert(dt.len() == 0);
            assert(dt + chunk_texts(more) =~= chunk_texts(more));
            assert(block_texts(bs) =~= seq![b.content]);
            assert(join_nl(seq![b.content]) == b.content);
        } else {
            lemma_join_nl_concat(dt, chunk_texts(more));
            lemma_join_nl_push(block_texts(d), b.content);
        }
    }
}

/// Splitting code with no empty line and no carriage return keeps every line
/// once, in order: the chunks joined with line breaks are the code's lines
/// joined with line breaks.
pub proof fn law_code_split_rejoins(code: Seq<char>, lang: Seq<char>, cfg: CodeSplitConfig)
    requires
        forall|k: int| 0 <= k < code.len() ==> code[k] != '\r',
        forall|j: int| 0 <= j < lines_of(code).len() ==> (#[trigger] lines_of(code)[j]).len() > 0,
    ensures
        join_nl(chunk_texts(code_split(code, lang, cfg).0)) == join_nl(lines_of(code)),
{
    let ls = lines_of(code);
    lemma_lines_acc_plain(code, 0, 0);
    assert(plain_lines(ls));
    if ls.len() > 0 {
        if cfg.preserve_functions {
            let k = lang_kind(lang);
            let cs = cfg.base.chunk_size as int;
            lemma_blocks_fold_plain(ls, k, cs);
            lemma_blocks_fold_parts(ls, k, cs);
            lemma_blocks_chunks_join(code_blocks(ls, k, cs), cfg, lang);
        } else {
            lemma_lines_chunks_join(ls, 0, cfg, lang);
        }
    }
}

/// Every chunk is marked as code in `lang`.
pub open spec fn code_typed(cs: Seq<ChunkView>, lang: Seq<char>) -> bool {
    forall|j: int| 0 <= j < cs.len() ==> (#[trigger] cs[j]).meta.types == Some(seq!["code"@, lang])
}

proof fn lemma_lines_fold_typed(ls: Seq<Seq<char>>, so0: int, cfg: CodeSplitConfig, lang: Seq<char>)
    ensures
        code_typed(lines_fold(ls, so0, cfg, lang).chunks, lang),
        code_typed(lines_chunks(ls, so0, cfg, lang).0, lang),
    decreases ls.len(),
{
    if ls.len() > 0 {
        lemma_lines_fold_typed(ls.drop_last(), so0, cfg, lang);
        let st = lines_fold(ls.drop_last(), so0, cfg, lang);
        let st2 = lines_fold(ls, so0, cfg, lang);
        assert forall|j: int| 0 <= j < st2.chunks.len() implies (#[trigger] st2.chunks[j]).meta.types == Some(
            seq!["code"@, lang],
        ) by {
            if j < st.chunks.len() {
                assert(st2.chunks[j] == st.chunks[j]);
            }
        }
    }
    let st = lines_fold(ls, so0, cfg, lang);
    let r = lines_chunks(ls, so0, cfg, lang).0;
    assert forall|j: int| 0 <= j < r.len() implies (#[trigger] r[j]).meta.types == Some(seq!["code"@, lang]) by {
        if j < st.chunks.len() {
            assert(r[j] == st.chunks[j]);
        }
    }
}

proof fn lemma_blocks_chunks_typed(bs: Seq<BlockView>, cfg: CodeSplitConfig, lang: Seq<char>)
    ensures
        code_typed(blocks_chunks(bs, cfg, lang).0, lang),
    decreases bs.len(),
{
    if bs.len() > 0 {
        lemma_blocks_chunks_typed(bs.drop_last(), cfg, lang);
        let (done, so) = blocks_chunks(bs.drop_last(), cfg, lang);
        let b = bs.last();
        lemma_lines_fold_typed(lines_of(b.content), so, cfg, lang);
        let r = blocks_chunks(bs, cfg, lang).0;
        assert forall|j: int| 0 <= j < r.len() implies (#[trigger] r[j]).meta.types == Some(seq!["code"@, lang]) by {
            if j < done.len() {
                assert(r[j] == done[j]);
            } else if byte_len(b.content) > cfg.base.chunk_size {
                let more = lines_chunks(lines_of(b.content), so, cfg, lang).0;
                assert(r[j] == more[j - done.len()]);
            }
        }
    }
}

/// Every chunk of a code split is marked as code in its language.
pub proof fn law_code_chunks_typed(code: Seq<char>, lang: Seq<char>, cfg: CodeSplitConfig)
    ensures
        code_typed(code_split(code, lang, cfg).0, lang),
{
    let ls = lines_of(code);
    if ls.len() > 0 {
        if cfg.preserve_functions {
            lemma_blocks_chunks_typed(
                code_blocks(ls, lang_kind(lang), cfg.base.chunk_size as int),
                cfg,
                lang,
            );
        } else {
            lemma_lines_fold_typed(ls, 0, cfg, lang);
        }
    }
}

} // verus!
