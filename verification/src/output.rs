//! The result of one run: where the text came from, how long it was, and
//! the posts cut from it; and how the posts are written out.
use vstd::prelude::*;
use vstd::string::*;

use crate::chunking::{ChunkError, chunk_text, spec_chunk_text, texts};
use crate::config::{AppConfig, OutputConfig};
use crate::text::{chars_of, join};

verus! {

/// Where the text came from.
#[derive(Debug, Clone)]
pub enum InputSource {
    /// A file, by its displayed path.
    File(String),
    /// The interactive session.
    Repl,
}

impl InputSource {
    /// `file:` and the path, or `repl`.
    pub open spec fn spec_label(&self) -> Seq<char> {
        match self {
            InputSource::File(path) => "file:"@ + path@,
            InputSource::Repl => "repl"@,
        }
    }

    /// A short name of the source for the logs.
    pub fn label(&self) -> (r: String)
        ensures
            r@ == self.spec_label(),
    {
        match self {
            InputSource::File(path) => {
                let mut r = String::from_str("file:");
                r.append(path.as_str());
                r
            },
            InputSource::Repl => String::from_str("repl"),
        }
    }
}

/// The posts cut from one input.
#[derive(Debug, Clone)]
pub struct ChunkedOutput {
    pub source: InputSource,
    /// Characters of the input.
    pub original_length: usize,
    pub chunks: Vec<String>,
}

/// Cuts the contents `text` of the file at `path` into posts.
pub fn chunk_file(path: String, text: &str, config: &AppConfig) -> (r: Result<
    ChunkedOutput,
    ChunkError,
>)
    ensures
        match r {
            Ok(out) => {
                &&& out.source == InputSource::File(path)
                &&& out.original_length == text@.len()
                &&& spec_chunk_text(text@, config.chunking) == Ok::<Seq<Seq<char>>, ChunkError>(
                    texts(out.chunks@),
                )
            },
            Err(e) => spec_chunk_text(text@, config.chunking) == Err::<Seq<Seq<char>>, ChunkError>(
                e,
            ),
        },
{
    let chunks = chunk_text(text, &config.chunking)?;
    let original_length = chars_of(text).len();
    Ok(ChunkedOutput { source: InputSource::File(path), original_length, chunks })
}

/// The text written for `chunks`: the posts joined by the separator, and a
/// final line break when configured (also when there are no posts).
pub open spec fn spec_render_chunks(chunks: Seq<Seq<char>>, config: OutputConfig) -> Seq<char> {
    join(chunks, config.chunk_separator@) + if config.emit_trailing_newline {
        seq!['\n']
    } else {
        Seq::empty()
    }
}

/// The text to write for `output`.
pub fn render_chunks(output: &ChunkedOutput, config: &OutputConfig) -> (r: String)
    ensures
        r@ == spec_render_chunks(texts(output.chunks@), *config),
{
    let mut r = String::new();
    let mut i: usize = 0;
    let ghost all = texts(output.chunks@);
    while i < output.chunks.len()
        invariant
            i <= output.chunks.len(),
            all == texts(output.chunks@),
            r@ == join(all.take(i as int), config.chunk_separator@),
        decreases output.chunks.len() - i,
    {
        proof {
            assert(all.take(i + 1).drop_last() =~= all.take(i as int));
        }
        if i > 0 {
            r.append(config.chunk_separator.as_str());
        }
        r.append(output.chunks[i].as_str());
        proof {
            if i == 0 {
                assert(r@ =~= all.take(1)[0]);
            }
        }
        i += 1;
    }
    proof {
        assert(all.take(output.chunks.len() as int) =~= all);
    }
    if config.emit_trailing_newline {
        r.append("\n");
        proof {
            reveal_strlit("\n");
        }
    } else {
        assert(r@ + Seq::<char>::empty() =~= r@);
    }
    r
}

} // verus!
