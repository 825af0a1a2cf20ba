//! Inline-completion request data shared by the cache, the recency ring and
//! workspace retrieval, with a mathematical view of each type.

use vstd::prelude::*;

verus! {

/// Where and when a request was taken.
#[derive(Clone, Copy, PartialEq, Eq, Structural, Debug)]
pub struct RequestSnapshot {
    pub document_id: u64,
    pub revision: u64,
    pub line: usize,
    pub column: usize,
    pub request_id: u64,
}

/// One snippet of extra context sent with a prompt.
#[derive(Clone, Debug)]
pub struct ContextChunk {
    pub filename: String,
    pub text: String,
}

/// How the provider's prompt is laid out.
#[derive(Clone, Copy, PartialEq, Eq, Structural, Debug)]
pub enum PromptFormat {
    Native,
    CodeLlama,
    StarCoder,
    Qwen,
    DeepSeek,
}

/// Which extra context a provider receives.
#[derive(Clone, Copy, PartialEq, Eq, Structural, Debug)]
pub enum ContextStrategy {
    Disabled,
    RecencyRing { max_chunks: usize, chunk_lines: usize },
    WorkspaceRetrieval { max_chunks: usize, chunk_lines: usize },
}

impl ContextStrategy {
    /// `(max_chunks, chunk_lines)` of a strategy that sends context.
    pub open spec fn limits_spec(self) -> Option<(usize, usize)> {
        match self {
            ContextStrategy::Disabled => None,
            ContextStrategy::RecencyRing { max_chunks, chunk_lines } => Some((max_chunks, chunk_lines)),
            ContextStrategy::WorkspaceRetrieval { max_chunks, chunk_lines } => Some(
                (max_chunks, chunk_lines),
            ),
        }
    }

    pub fn limits(&self) -> (r: Option<(usize, usize)>)
        ensures
            r == self.limits_spec(),
    {
        match *self {
            ContextStrategy::Disabled => None,
            ContextStrategy::RecencyRing { max_chunks, chunk_lines } => Some((max_chunks, chunk_lines)),
            ContextStrategy::WorkspaceRetrieval { max_chunks, chunk_lines } => Some(
                (max_chunks, chunk_lines),
            ),
        }
    }
}

/// A completion backend and the settings that shape its answers.
#[derive(Clone, Debug)]
pub struct ProviderConfig {
    pub url: String,
    pub model: Option<String>,
    pub api_key_env: Option<String>,
    pub n: u32,
    pub prompt_format: PromptFormat,
    pub context: ContextStrategy,
}

/// Everything the provider sees for one inline request.
#[derive(Clone, Debug)]
pub struct InlineRequest {
    pub snapshot: RequestSnapshot,
    pub prefix: String,
    pub suffix: String,
    pub language: Option<String>,
    pub file_path: Option<String>,
    pub extra_context: Vec<ContextChunk>,
    pub explicit: bool,
}

/// A request bound to the provider that will answer it.
#[derive(Clone, Debug)]
pub struct InlineJob {
    pub request: InlineRequest,
    pub provider: ProviderConfig,
}

pub ghost struct ChunkView {
    pub filename: Seq<char>,
    pub text: Seq<char>,
}

pub ghost struct ProviderView {
    pub url: Seq<char>,
    pub model: Option<Seq<char>>,
    pub api_key_env: Option<Seq<char>>,
    pub n: u32,
    pub prompt_format: PromptFormat,
    pub context: ContextStrategy,
}

pub ghost struct RequestView {
    pub snapshot: RequestSnapshot,
    pub prefix: Seq<char>,
    pub suffix: Seq<char>,
    pub language: Option<Seq<char>>,
    pub file_path: Option<Seq<char>>,
    pub extra_context: Seq<ChunkView>,
    pub explicit: bool,
}

pub ghost struct JobView {
    pub request: RequestView,
    pub provider: ProviderView,
}

pub open spec fn opt_view(o: Option<String>) -> Option<Seq<char>> {
    match o {
        Some(s) => Some(s@),
        None => None,
    }
}

pub open spec fn strings_view(v: Seq<String>) -> Seq<Seq<char>> {
    v.map_values(|s: String| s@)
}

impl View for ContextChunk {
    type V = ChunkView;

    open spec fn view(&self) -> ChunkView {
        ChunkView { filename: self.filename@, text: self.text@ }
    }
}

pub open spec fn chunks_view(v: Seq<ContextChunk>) -> Seq<ChunkView> {
    v.map_values(|c: ContextChunk| c@)
}

impl View for ProviderConfig {
    type V = ProviderView;

    open spec fn view(&self) -> ProviderView {
        ProviderView {
            url: self.url@,
            model: opt_view(self.model),
            api_key_env: opt_view(self.api_key_env),
            n: self.n,
            prompt_format: self.prompt_format,
            context: self.context,
        }
    }
}

impl View for InlineRequest {
    type V = RequestView;

    open spec fn view(&self) -> RequestView {
        RequestView {
            snapshot: self.snapshot,
            prefix: self.prefix@,
            suffix: self.suffix@,
            language: opt_view(self.language),
            file_path: opt_view(self.file_path),
            extra_context: chunks_view(self.extra_context@),
            explicit: self.explicit,
        }
    }
}

impl View for InlineJob {
    type V = JobView;

    open spec fn view(&self) -> JobView {
        JobView { request: self.request@, provider: self.provider@ }
    }
}

/// Equality of two optional strings by their characters.
pub fn opt_string_eq(a: &Option<String>, b: &Option<String>) -> (r: bool)
    ensures
        r == (opt_view(*a) == opt_view(*b)),
{
    match (a, b) {
        (Some(x), Some(y)) => *x == *y,
        (None, None) => true,
        _ => false,
    }
}

/// A copy of an optional string.
pub fn opt_string_copy(a: &Option<String>) -> (r: Option<String>)
    ensures
        opt_view(r) == opt_view(*a),
{
    match a {
        Some(x) => Some(x.clone()),
        None => None,
    }
}

impl ContextChunk {
    pub fn copy(&self) -> (r: ContextChunk)
        ensures
            r@ == self@,
    {
        ContextChunk { filename: self.filename.clone(), text: self.text.clone() }
    }

    pub fn same_as(&self, other: &ContextChunk) -> (r: bool)
        ensures
            r == (self@ == other@),
    {
        self.filename == other.filename && self.text == other.text
    }
}

/// Element-wise equality of two chunk lists; order matters.
pub fn chunks_eq(a: &Vec<ContextChunk>, b: &Vec<ContextChunk>) -> (r: bool)
    ensures
        r == (chunks_view(a@) == chunks_view(b@)),
{
    if a.len() != b.len() {
        assert(chunks_view(a@).len() != chunks_view(b@).len());
        return false;
    }
    let mut i: usize = 0;
    while i < a.len()
        invariant
            a.len() == b.len(),
            0 <= i <= a.len(),
            forall|j: int| 0 <= j < i ==> a@[j]@ == b@[j]@,
        decreases a.len() - i,
    {
        if !a[i].same_as(&b[i]) {
            assert(chunks_view(a@)[i as int] != chunks_view(b@)[i as int]);
            return false;
        }
        i = i + 1;
    }
    assert(chunks_view(a@) =~= chunks_view(b@));
    true
}

/// A copy of a chunk list.
pub fn chunks_copy(a: &Vec<ContextChunk>) -> (r: Vec<ContextChunk>)
    ensures
        chunks_view(r@) == chunks_view(a@),
{
    let mut r: Vec<ContextChunk> = Vec::new();
    let mut i: usize = 0;
    while i < a.len()
        invariant
            0 <= i <= a.len(),
            r@.len() == i,
            forall|j: int| 0 <= j < i ==> r@[j]@ == a@[j]@,
        decreases a.len() - i,
    {
        r.push(a[i].copy());
        i = i + 1;
    }
    assert(chunks_view(r@) =~= chunks_view(a@));
    r
}

impl ProviderConfig {
    pub fn copy(&self) -> (r: ProviderConfig)
        ensures
            r@ == self@,
    {
        ProviderConfig {
            url: self.url.clone(),
            model: opt_string_copy(&self.model),
            api_key_env: opt_string_copy(&self.api_key_env),
            n: self.n,
            prompt_format: self.prompt_format,
            context: self.context,
        }
    }

    pub fn same_as(&self, other: &ProviderConfig) -> (r: bool)
        ensures
            r == (self@ == other@),
    {
        self.url == other.url && opt_string_eq(&self.model, &other.model) && opt_string_eq(
            &self.api_key_env,
            &other.api_key_env,
        ) && self.n == other.n && self.prompt_format == other.prompt_format && self.context
            == other.context
    }
}

impl InlineRequest {
    pub fn copy(&self) -> (r: InlineRequest)
        ensures
            r@ == self@,
    {
        InlineRequest {
            snapshot: self.snapshot,
            prefix: self.prefix.clone(),
            suffix: self.suffix.clone(),
            language: opt_string_copy(&self.language),
            file_path: opt_string_copy(&self.file_path),
            extra_context: chunks_copy(&self.extra_context),
            explicit: self.explicit,
        }
    }
}

impl InlineJob {
    pub fn copy(&self) -> (r: InlineJob)
        ensures
            r@ == self@,
    {
        InlineJob { request: self.request.copy(), provider: self.provider.copy() }
    }
}

} // verus!
