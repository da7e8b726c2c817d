//! Embedding models, token estimates, and the choice of an embedding provider.
use vstd::prelude::*;

use crate::config::{EmbeddingConfig, EmbeddingProvider};
use crate::splitter::text_splitter::strs_view;
use crate::text::{chars_of, contains, contains_seq, lowercase_of, str_eq, to_lowercase};
use vstd::arithmetic::power2::pow2;

verus! {

broadcast use vstd::string::group_string_axioms;

/// Embedding model information.
#[derive(Debug, Clone)]
pub struct EmbeddingModel {
    /// Model identifier.
    pub id: String,
    /// Dimension of the embedding vectors.
    pub dimension: usize,
    /// Maximum input tokens.
    pub max_tokens: usize,
}

/// A known model: its identifier, vector dimension and input token limit.
pub type ModelEntry = (&'static str, usize, usize);

/// The plain values of a table of models.
pub open spec fn models_view(v: Seq<ModelEntry>) -> Seq<(Seq<char>, usize, usize)> {
    v.map_values(|e: ModelEntry| (e.0@, e.1, e.2))
}

/// The known OpenAI models.
pub open spec fn openai_table() -> Seq<(Seq<char>, usize, usize)> {
    seq![
        ("text-embedding-3-small"@, 1536usize, 8191usize),
        ("text-embedding-3-large"@, 3072usize, 8191usize),
        ("text-embedding-ada-002"@, 1536usize, 8191usize),
    ]
}

/// The known Google models.
pub open spec fn google_table() -> Seq<(Seq<char>, usize, usize)> {
    seq![("text-embedding-004"@, 768usize, 2048usize), ("embedding-001"@, 768usize, 2048usize)]
}

/// The first entry of `t` from index `i` on whose identifier is `id`.
pub open spec fn find_model(t: Seq<(Seq<char>, usize, usize)>, id: Seq<char>, i: int) -> Option<
    (Seq<char>, usize, usize),
>
    decreases t.len() - i,
{
    if i < 0 || i >= t.len() {
        None
    } else if t[i].0 == id {
        Some(t[i])
    } else {
        find_model(t, id, i + 1)
    }
}

/// The dimension of a known model (OpenAI models first, then Google ones).
pub open spec fn model_dimension(id: Seq<char>) -> Option<usize> {
    match find_model(openai_table() + google_table(), id, 0) {
        Some(e) => Some(e.1),
        None => None,
    }
}

/// Known OpenAI embedding models: (model_id, dimension, max_tokens).
pub fn openai_models() -> (r: Vec<ModelEntry>)
    ensures
        models_view(r@) == openai_table(),
{
    let mut v: Vec<ModelEntry> = Vec::new();
    v.push(("text-embedding-3-small", 1536, 8191));
    v.push(("text-embedding-3-large", 3072, 8191));
    v.push(("text-embedding-ada-002", 1536, 8191));
    assert(models_view(v@) =~= openai_table());
    v
}

/// Known Google embedding models: (model_id, dimension, max_tokens).
pub fn google_models() -> (r: Vec<ModelEntry>)
    ensures
        models_view(r@) == google_table(),
{
    let mut v: Vec<ModelEntry> = Vec::new();
    v.push(("text-embedding-004", 768, 2048));
    v.push(("embedding-001", 768, 2048));
    assert(models_view(v@) =~= google_table());
    v
}

/// The entry of `table` for `model_id`, if any.
fn lookup_model(table: &Vec<ModelEntry>, model_id: &str) -> (r: Option<ModelEntry>)
    ensures
        match r {
            Some(e) => find_model(models_view(table@), model_id@, 0) == Some((e.0@, e.1, e.2)),
            None => find_model(models_view(table@), model_id@, 0) is None,
        },
{
    let ghost t = models_view(table@);
    let mut i: usize = 0;
    while i < table.len()
        invariant
            i <= table.len(),
            t == models_view(table@),
            find_model(t, model_id@, 0) == find_model(t, model_id@, i as int),
        decreases table.len() - i,
    {
        let e = table[i];
        if str_eq(e.0, model_id) {
            return Some(e);
        }
        i = i + 1;
    }
    None
}

proof fn lemma_find_model_concat(a: Seq<(Seq<char>, usize, usize)>, b: Seq<(Seq<char>, usize, usize)>, id: Seq<char>, i: int)
    requires
        0 <= i <= a.len(),
    ensures
        find_model(a + b, id, i) == match find_model(a, id, i) {
            Some(e) => Some(e),
            None => find_model(b, id, 0),
        },
    decreases a.len() - i,
{
    if i < a.len() {
        assert((a + b)[i] == a[i]);
        lemma_find_model_concat(a, b, id, i + 1);
    } else {
        lemma_find_model_shift(a, b, id, 0);
    }
}

proof fn lemma_find_model_shift(a: Seq<(Seq<char>, usize, usize)>, b: Seq<(Seq<char>, usize, usize)>, id: Seq<char>, j: int)
    requires
        0 <= j <= b.len(),
    ensures
        find_model(a + b, id, a.len() + j) == find_model(b, id, j),
    decreases b.len() - j,
{
    if j < b.len() {
        assert((a + b)[a.len() + j] == b[j]);
        lemma_find_model_shift(a, b, id, j + 1);
    }
}

/// Get the dimension for a model.
pub fn get_model_dimension(model_id: &str) -> (r: Option<usize>)
    ensures
        r == model_dimension(model_id@),
{
    proof {
        lemma_find_model_concat(openai_table(), google_table(), model_id@, 0);
    }
    match lookup_model(&openai_models(), model_id) {
        Some(e) => Some(e.1),
        None => match lookup_model(&google_models(), model_id) {
            Some(e) => Some(e.1),
            None => None,
        },
    }
}

/// Check if a dimension matches a model; an unknown model accepts any dimension.
pub fn is_valid_dimension(model_id: &str, dimension: usize) -> (r: bool)
    ensures
        r == match model_dimension(model_id@) {
            Some(d) => d == dimension,
            None => true,
        },
{
    match get_model_dimension(model_id) {
        Some(d) => d == dimension,
        None => true,
    }
}

/// What a model reports of itself: the table's dimension and token limit for a
/// known model, else the configured dimension and `default_max_tokens`.
pub open spec fn model_info_of(
    t: Seq<(Seq<char>, usize, usize)>,
    model: Seq<char>,
    dimension: usize,
    default_max_tokens: usize,
) -> (Seq<char>, usize, usize) {
    match find_model(t, model, 0) {
        Some(e) => (model, e.1, e.2),
        None => (model, dimension, default_max_tokens),
    }
}

/// The information of `model` looked up in `table`.
pub fn model_info_in(
    table: &Vec<ModelEntry>,
    model: &String,
    dimension: usize,
    default_max_tokens: usize,
) -> (r: EmbeddingModel)
    ensures
        (r.id@, r.dimension, r.max_tokens) == model_info_of(
            models_view(table@),
            model@,
            dimension,
            default_max_tokens,
        ),
{
    let (dim, max_tokens) = match lookup_model(table, model.as_str()) {
        Some(e) => (e.1, e.2),
        None => (dimension, default_max_tokens),
    };
    EmbeddingModel { id: model.clone(), dimension: dim, max_tokens }
}

/// Whether `c` is counted as one token by itself (CJK ideographs, kana, hangul).
pub open spec fn is_cjk(c: char) -> bool {
    let u = c as u32;
    (0x4e00 <= u && u <= 0x9fff) || (0x3040 <= u && u <= 0x309f) || (0x30a0 <= u && u <= 0x30ff)
        || (0xac00 <= u && u <= 0xd7af)
}

/// Number of CJK chars of `s`.
pub open spec fn cjk_count(s: Seq<char>) -> nat
    decreases s.len(),
{
    if s.len() == 0 {
        0
    } else {
        cjk_count(s.drop_last()) + if is_cjk(s.last()) {
            1nat
        } else {
            0nat
        }
    }
}

/// The token estimate of a text: one token per CJK char plus one per four other
/// chars (at least one), plus an overhead of five.
pub open spec fn token_estimate(s: Seq<char>) -> int {
    let cjk = cjk_count(s) as int;
    let other = s.len() - cjk;
    let est = cjk + if other / 4 > 1 {
        other / 4
    } else {
        1
    };
    (if est > 1 {
        est
    } else {
        1
    }) + 5
}

/// The sum of the token estimates of some texts.
pub open spec fn batch_estimate(ts: Seq<Seq<char>>) -> int
    decreases ts.len(),
{
    if ts.len() == 0 {
        0
    } else {
        batch_estimate(ts.drop_last()) + token_estimate(ts.last())
    }
}

proof fn lemma_cjk_le(s: Seq<char>)
    ensures
        cjk_count(s) <= s.len(),
    decreases s.len(),
{
    if s.len() > 0 {
        lemma_cjk_le(s.drop_last());
    }
}

/// Whether `c` is a CJK char.
fn is_cjk_char(c: char) -> (b: bool)
    ensures
        b == is_cjk(c),
{
    let u = c as u32;
    (0x4e00 <= u && u <= 0x9fff) || (0x3040 <= u && u <= 0x309f) || (0x30a0 <= u && u <= 0x30ff)
        || (0xac00 <= u && u <= 0xd7af)
}

/// Estimate the number of tokens in a text.
///
/// This is a rough estimate:
/// - For CJK characters: approximately 1 token per character
/// - For other characters: approximately 4 characters per token
pub fn estimate_tokens(text: &str) -> (r: usize)
    requires
        token_estimate(text@) <= usize::MAX,
    ensures
        r == token_estimate(text@),
{
    let cs = chars_of(text);
    let mut cjk: usize = 0;
    let mut i: usize = 0;
    while i < cs.len()
        invariant
            i <= cs.len(),
            cjk <= i,
            cjk == cjk_count(cs@.take(i as int)),
        decreases cs.len() - i,
    {
        assert(cs@.take(i + 1).drop_last() =~= cs@.take(i as int));
        if is_cjk_char(cs[i]) {
            cjk = cjk + 1;
        }
        i = i + 1;
    }
    assert(cs@.take(cs.len() as int) =~= cs@);
    let other = cs.len() - cjk;
    let q = other / 4;
    let m = if q > 1 {
        q
    } else {
        1
    };
    let est = cjk + m;
    (if est > 1 {
        est
    } else {
        1
    }) + 5
}

proof fn lemma_batch_prefix(ts: Seq<Seq<char>>, j: int)
    requires
        0 <= j <= ts.len(),
    ensures
        batch_estimate(ts.take(j)) <= batch_estimate(ts),
        j < ts.len() ==> batch_estimate(ts.take(j + 1)) == batch_estimate(ts.take(j)) + token_estimate(ts[j]),
    decreases ts.len(),
{
    if j < ts.len() {
        assert(ts.take(j + 1).drop_last() =~= ts.take(j));
        assert(ts.drop_last().take(j) =~= ts.take(j));
        lemma_batch_prefix(ts.drop_last(), j);
        lemma_estimate_pos(ts.last());
    } else {
        assert(ts.take(j) =~= ts);
    }
}

proof fn lemma_estimate_pos(s: Seq<char>)
    ensures
        token_estimate(s) >= 6,
{
    lemma_cjk_le(s);
}

/// Estimate total tokens for a batch of texts.
pub fn estimate_batch_tokens(texts: &[&str]) -> (r: usize)
    requires
        batch_estimate(strs_view(texts@)) <= usize::MAX,
    ensures
        r == batch_estimate(strs_view(texts@)),
{
    let ghost tv = strs_view(texts@);
    let mut total: usize = 0;
    let mut i: usize = 0;
    while i < texts.len()
        invariant
            i <= texts.len(),
            tv == strs_view(texts@),
            batch_estimate(tv) <= usize::MAX,
            total == batch_estimate(tv.take(i as int)),
        decreases texts.len() - i,
    {
        proof {
            lemma_batch_prefix(tv, i as int);
            lemma_batch_prefix(tv, i as int + 1);
            lemma_estimate_pos(tv[i as int]);
        }
        assert(tv[i as int] == texts@[i as int]@);
        let n = estimate_tokens(texts[i]);
        total = total + n;
        i = i + 1;
    }
    assert(tv.take(texts.len() as int) =~= tv);
    total
}

/// Statistics for the rate limiter.
#[derive(Debug, Clone)]
pub struct RateLimiterStats {
    /// Maximum requests per minute
    pub max_rpm: u32,
    /// Maximum tokens per minute
    pub max_tpm: u32,
    /// Currently available request tokens
    pub available_requests: u32,
    /// Currently available token tokens
    pub available_tokens: u32,
}

/// A no-op embedder that refuses to embed.
/// This is used as a fallback when no embedding API key is configured.
pub struct NoneEmbedder;

/// The message with which the no-op embedder refuses.
pub open spec fn none_embedder_message() -> Seq<char> {
    "Embedding not available: no API key configured. Use FTS-only search instead."@
}

impl NoneEmbedder {
    /// Create a new NoneEmbedder.
    pub fn new() -> (r: Self) {
        NoneEmbedder
    }

    /// The provider's name.
    pub fn name(&self) -> (r: &'static str)
        ensures
            r@ == "none"@,
    {
        "none"
    }

    /// It has no dimension.
    pub fn dimension(&self) -> (r: usize)
        ensures
            r == 0,
    {
        0
    }

    /// It is never available, which makes searches use full-text search only.
    pub fn is_available(&self) -> (r: bool)
        ensures
            !r,
    {
        false
    }

    /// The message with which every embedding request is refused.
    pub fn refusal(&self) -> (r: String)
        ensures
            r@ == none_embedder_message(),
    {
        "Embedding not available: no API key configured. Use FTS-only search instead.".to_owned()
    }
}

impl Default for NoneEmbedder {
    fn default() -> (r: Self) {
        NoneEmbedder::new()
    }
}

/// The embedder that a configuration calls for.
#[derive(Debug, Clone)]
pub enum EmbedderChoice {
    /// OpenAI, with its key, base URL if any, model and dimension.
    OpenAI { api_key: String, base_url: Option<String>, model: String, dimension: usize },
    /// Google, with its key, model, dimension and base URL if any.
    Google { api_key: String, model: String, dimension: usize, base_url: Option<String> },
    /// No embedder: searches use full-text search only.
    Disabled,
}

/// Whether a key is configured and not empty.
pub open spec fn has_key(k: Option<String>) -> bool {
    match k {
        Some(s) => s@.len() > 0,
        None => false,
    }
}

/// Choose the embedder for a configuration: the configured provider when its API
/// key is set and not empty, else none.
pub fn choose_embedder(config: &EmbeddingConfig) -> (r: EmbedderChoice)
    ensures
        config.provider == EmbeddingProvider::OpenAI ==> if has_key(config.openai_api_key) {
            r == (EmbedderChoice::OpenAI {
                api_key: config.openai_api_key.unwrap(),
                base_url: config.openai_api_base,
                model: config.openai_model,
                dimension: config.dimension,
            })
        } else {
            r == EmbedderChoice::Disabled
        },
        config.provider == EmbeddingProvider::Google ==> if has_key(config.google_api_key) {
            r == (EmbedderChoice::Google {
                api_key: config.google_api_key.unwrap(),
                model: config.google_model,
                dimension: config.dimension,
                base_url: config.google_api_base,
            })
        } else {
            r == EmbedderChoice::Disabled
        },
{
    match config.provider {
        EmbeddingProvider::OpenAI => match &config.openai_api_key {
            Some(k) => {
                if k.as_str().unicode_len() > 0 {
                    EmbedderChoice::OpenAI {
                        api_key: k.clone(),
                        base_url: config.openai_api_base.clone(),
                        model: config.openai_model.clone(),
                        dimension: config.dimension,
                    }
                } else {
                    EmbedderChoice::Disabled
                }
            },
            None => EmbedderChoice::Disabled,
        },
        EmbeddingProvider::Google => match &config.google_api_key {
            Some(k) => {
                if k.as_str().unicode_len() > 0 {
                    EmbedderChoice::Google {
                        api_key: k.clone(),
                        model: config.google_model.clone(),
                        dimension: config.dimension,
                        base_url: config.google_api_base.clone(),
                    }
                } else {
                    EmbedderChoice::Disabled
                }
            },
            None => EmbedderChoice::Disabled,
        },
    }
}


/// How embedding vectors are stored: two or four bytes per value.
#[derive(Debug, Clone, Copy, PartialEq, Eq, Structural)]
pub enum EmbeddingFormat {
    /// Half-precision floats (the current format).
    F16,
    /// Single-precision floats (the earlier format).
    F32,
}

/// Whether `d` is one of the common embedding dimensions.
pub open spec fn is_common_dim(d: int) -> bool {
    d == 768 || d == 1536 || d == 3072
}

/// The format in which `len` stored bytes are read for a `dim`-dimensional
/// embedding: an exact fit for `dim` first, then an exact fit for a common
/// dimension (768, 1536, 3072, each as half then as single precision), then by
/// the length alone; `None` where nothing fits.
pub open spec fn embedding_format(len: int, dim: int) -> Option<EmbeddingFormat> {
    if len == dim * 2 {
        Some(EmbeddingFormat::F16)
    } else if len == dim * 4 {
        Some(EmbeddingFormat::F32)
    } else if len == 768 * 2 {
        Some(EmbeddingFormat::F16)
    } else if len == 768 * 4 {
        Some(EmbeddingFormat::F32)
    } else if len == 1536 * 2 {
        Some(EmbeddingFormat::F16)
    } else if len == 1536 * 4 {
        Some(EmbeddingFormat::F32)
    } else if len == 3072 * 2 {
        Some(EmbeddingFormat::F16)
    } else if len == 3072 * 4 {
        Some(EmbeddingFormat::F32)
    } else if len % 2 == 0 && len % 4 != 0 {
        Some(EmbeddingFormat::F16)
    } else if len % 4 == 0 && len >= 4 {
        if is_common_dim(len / 2) {
            Some(EmbeddingFormat::F16)
        } else if len / 4 <= 100 {
            Some(EmbeddingFormat::F16)
        } else {
            Some(EmbeddingFormat::F32)
        }
    } else {
        None
    }
}

/// Decide in which format stored embedding bytes are to be decoded.
pub fn detect_embedding_format(byte_len: usize, dimension: usize) -> (r: Option<EmbeddingFormat>)
    requires
        dimension * 4 <= usize::MAX,
    ensures
        r == embedding_format(byte_len as int, dimension as int),
{
    if byte_len == dimension * 2 {
        return Some(EmbeddingFormat::F16);
    }
    if byte_len == dimension * 4 {
        return Some(EmbeddingFormat::F32);
    }
    let dims: [usize; 3] = [768, 1536, 3072];
    let mut i: usize = 0;
    while i < 3
        invariant
            i <= 3,
            dims@ == seq![768usize, 1536usize, 3072usize],
            byte_len != dimension * 2,
            byte_len != dimension * 4,
            forall|k: int| 0 <= k < i ==> byte_len != dims@[k] * 2 && byte_len != dims@[k] * 4,
        decreases 3 - i,
    {
        let d = dims[i];
        if byte_len == d * 2 {
            return Some(EmbeddingFormat::F16);
        }
        if byte_len == d * 4 {
            return Some(EmbeddingFormat::F32);
        }
        i = i + 1;
    }
    assert(byte_len != 768 * 2 && byte_len != 768 * 4 && byte_len != 1536 * 4 && byte_len != 3072
        * 4) by {
        assert(dims@[0] == 768 && dims@[1] == 1536 && dims@[2] == 3072);
    }
    if byte_len % 2 == 0 && byte_len % 4 != 0 {
        return Some(EmbeddingFormat::F16);
    }
    if byte_len % 4 == 0 && byte_len >= 4 {
        let f16_dim = byte_len / 2;
        let f32_dim = byte_len / 4;
        if f16_dim == 768 || f16_dim == 1536 || f16_dim == 3072 {
            return Some(EmbeddingFormat::F16);
        }
        if f32_dim <= 100 {
            return Some(EmbeddingFormat::F16);
        }
        return Some(EmbeddingFormat::F32);
    }
    None
}

/// Index of the first `c` in `s`, or `s.len()`.
pub open spec fn first_index_of(s: Seq<char>, c: char, i: int) -> int
    decreases s.len() - i,
{
    if i < 0 || i >= s.len() {
        s.len() as int
    } else if s[i] == c {
        i
    } else {
        first_index_of(s, c, i + 1)
    }
}

/// The provider name and model name given by a model option: `provider:model`
/// splits at the first colon; a bare provider name (`openai` or `google`, in
/// any case) selects that provider's `default` model; any other bare name is an
/// OpenAI model.
pub open spec fn model_option(m: Seq<char>) -> (Seq<char>, Seq<char>) {
    let k = first_index_of(m, ':', 0);
    if k < m.len() {
        (m.take(k), m.skip(k + 1))
    } else if lowercase_of(m) == "openai"@ || lowercase_of(m) == "google"@ {
        (m, "default"@)
    } else {
        ("openai"@, m)
    }
}

/// The embedding configuration that a model option and the API settings give.
pub open spec fn embedding_config_spec(
    model: Seq<char>,
    openai_key: Option<String>,
    openai_base: Option<String>,
    google_key: Option<String>,
    google_base: Option<String>,
    dimension: usize,
    c: EmbeddingConfig,
) -> bool {
    let (provider, model_id) = model_option(model);
    &&& c.provider == (if lowercase_of(provider) == "google"@ {
        EmbeddingProvider::Google
    } else {
        EmbeddingProvider::OpenAI
    })
    &&& c.openai_api_key == openai_key
    &&& c.openai_api_base == openai_base
    &&& c.openai_model@ == (if provider == "openai"@ {
        model_id
    } else {
        "text-embedding-3-small"@
    })
    &&& c.google_api_key == google_key
    &&& c.google_api_base == google_base
    &&& c.google_model@ == (if provider == "google"@ {
        model_id
    } else {
        "text-embedding-004"@
    })
    &&& c.dimension == dimension
}

/// Split a model option into its provider name and model name.
pub fn parse_model_option(model: &str) -> (r: (String, String))
    ensures
        (r.0@, r.1@) == model_option(model@),
{
    let cs = chars_of(model);
    let mut k: usize = 0;
    while k < cs.len() && cs[k] != ':'
        invariant
            k <= cs.len(),
            cs@ == model@,
            first_index_of(cs@, ':', 0) == first_index_of(cs@, ':', k as int),
        decreases cs.len() - k,
    {
        k = k + 1;
    }
    if k < cs.len() {
        let p = crate::text::string_from_range(&cs, 0, k);
        let m = crate::text::string_from_range(&cs, k + 1, cs.len());
        assert(cs@.subrange(0, k as int) =~= cs@.take(k as int));
        assert(cs@.subrange(k + 1, cs.len() as int) =~= cs@.skip(k + 1));
        (p, m)
    } else {
        let low = to_lowercase(model);
        if str_eq(low.as_str(), "openai") || str_eq(low.as_str(), "google") {
            (model.to_owned(), "default".to_owned())
        } else {
            ("openai".to_owned(), model.to_owned())
        }
    }
}

/// The embedding configuration for a model option (`provider:model`) and the
/// API keys and base URLs given.
pub fn embedding_config_for(
    model: &str,
    openai_key: Option<String>,
    openai_base: Option<String>,
    google_key: Option<String>,
    google_base: Option<String>,
    dimension: usize,
) -> (r: EmbeddingConfig)
    ensures
        embedding_config_spec(model@, openai_key, openai_base, google_key, google_base, dimension, r),
{
    let (provider, model_id) = parse_model_option(model);
    let low = to_lowercase(provider.as_str());
    let embedding_provider = if str_eq(low.as_str(), "google") {
        EmbeddingProvider::Google
    } else {
        EmbeddingProvider::OpenAI
    };
    let openai_model = if str_eq(provider.as_str(), "openai") {
        model_id.clone()
    } else {
        "text-embedding-3-small".to_owned()
    };
    let google_model = if str_eq(provider.as_str(), "google") {
        model_id.clone()
    } else {
        "text-embedding-004".to_owned()
    };
    EmbeddingConfig {
        provider: embedding_provider,
        openai_api_key: openai_key,
        openai_api_base: openai_base,
        openai_model,
        google_api_key: google_key,
        google_api_base: google_base,
        google_model,
        dimension,
    }
}

/// A text's token estimate is at least the overhead of five plus one token,
/// counts every CJK char as a token, and exceeds the number of chars by at most six.
pub proof fn law_token_estimate_bounds(s: Seq<char>)
    ensures
        token_estimate(s) >= 6,
        token_estimate(s) >= cjk_count(s) + 6,
        token_estimate(s) <= s.len() + 6,
{
    lemma_cjk_le(s);
}

/// Whether an error message reports a rate limit (HTTP status 429).
pub fn is_rate_limited(message: &str) -> (r: bool)
    ensures
        r == contains_seq(message@, "429"@),
{
    let m = chars_of(message);
    let p = chars_of("429");
    contains(&m, &p)
}

/// Whether a failed request is retried: only a rate-limited one, and only while
/// fewer than `max_retries` retries were made.
pub fn should_retry(rate_limited: bool, retries: u32, max_retries: u32) -> (r: bool)
    ensures
        r == (rate_limited && retries < max_retries),
{
    rate_limited && retries < max_retries
}

/// The delay before retry number `attempt` (counting from one): the base delay,
/// doubled for each retry before it.
pub fn backoff_delay(base_delay_ms: u64, attempt: u32) -> (r: u64)
    requires
        1 <= attempt <= 64,
        base_delay_ms * pow2((attempt - 1) as nat) <= u64::MAX,
    ensures
        r == base_delay_ms * pow2((attempt - 1) as nat),
{
    let shift: u64 = (attempt - 1) as u64;
    proof {
        vstd::bits::lemma_u64_pow2_no_overflow(shift as nat);
        vstd::bits::lemma_u64_shl_is_mul(1u64, shift);
    }
    let p: u64 = 1u64 << shift;
    base_delay_ms * p
}

/// The OpenAI embeddings endpoint under `base_url`.
pub fn openai_embed_url(base_url: &str) -> (r: String)
    ensures
        r@ == base_url@ + "/embeddings"@,
{
    let mut u = base_url.to_owned();
    u.append("/embeddings");
    u
}

/// The Google endpoint that embeds one text with `model`.
pub fn google_embed_url(base_url: &str, model: &str, api_key: &str) -> (r: String)
    ensures
        r@ == base_url@ + "/models/"@ + model@ + ":embedContent?key="@ + api_key@,
{
    let mut u = base_url.to_owned();
    u.append("/models/");
    u.append(model);
    u.append(":embedContent?key=");
    u.append(api_key);
    u
}

/// The Google endpoint that embeds a batch of texts with `model`.
pub fn google_batch_embed_url(base_url: &str, model: &str, api_key: &str) -> (r: String)
    ensures
        r@ == base_url@ + "/models/"@ + model@ + ":batchEmbedContents?key="@ + api_key@,
{
    let mut u = base_url.to_owned();
    u.append("/models/");
    u.append(model);
    u.append(":batchEmbedContents?key=");
    u.append(api_key);
    u
}

} // verus!
