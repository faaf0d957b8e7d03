//! Configuration of the chunker, the interactive session, the output and logging.
use vstd::prelude::*;
use vstd::string::*;

verus! {

/// How text is cut into posts.
#[derive(Debug, Clone)]
pub struct ChunkingConfig {
    /// Upper bound on the characters of one post, numbering and suffix included.
    pub max_chars: usize,
    /// Whether each post starts with its rendered `numbering_format`.
    pub numbering: bool,
    /// Template of the numbering prefix; `{current}` and `{total}` are filled in.
    pub numbering_format: String,
    /// Text appended to every post.
    pub suffix: String,
    /// Whether paragraphs are kept whole where they fit.
    pub preserve_paragraphs: bool,
    /// Whether line breaks of the input survive into the posts.
    pub preserve_line_breaks: bool,
    /// Whether runs of whitespace inside a line become one space.
    pub collapse_whitespace: bool,
    /// Whether text is cut at sentence ends before words.
    pub split_sentences: bool,
    /// What stands between two paragraphs.
    pub paragraph_separator: String,
}

impl Default for ChunkingConfig {
    fn default() -> (r: Self)
        ensures
            r.max_chars == 280,
            r.numbering,
            r.numbering_format@ == "{current}/{total} "@,
            r.suffix@ == Seq::<char>::empty(),
            r.preserve_paragraphs,
            !r.preserve_line_breaks,
            r.collapse_whitespace,
            r.split_sentences,
            r.paragraph_separator@ == "\n\n"@,
    {
        ChunkingConfig {
            max_chars: 280,
            numbering: true,
            numbering_format: String::from_str("{current}/{total} "),
            suffix: String::new(),
            preserve_paragraphs: true,
            preserve_line_breaks: false,
            collapse_whitespace: true,
            split_sentences: true,
            paragraph_separator: String::from_str("\n\n"),
        }
    }
}

/// Commands and prompt of the interactive session.
#[derive(Debug, Clone)]
pub struct ReplConfig {
    pub prompt: String,
    pub done_command: String,
    pub clear_command: String,
    pub help_command: String,
    pub quit_commands: Vec<String>,
    pub show_stats_command: String,
}

impl Default for ReplConfig {
    fn default() -> (r: Self)
        ensures
            r.prompt@ == "twitr> "@,
            r.done_command@ == "/done"@,
            r.clear_command@ == "/clear"@,
            r.help_command@ == "/help"@,
            r.quit_commands@.len() == 2,
            r.quit_commands@[0]@ == "/quit"@,
            r.quit_commands@[1]@ == "/exit"@,
            r.show_stats_command@ == "/stats"@,
    {
        let mut quit_commands: Vec<String> = Vec::new();
        quit_commands.push(String::from_str("/quit"));
        quit_commands.push(String::from_str("/exit"));
        ReplConfig {
            prompt: String::from_str("twitr> "),
            done_command: String::from_str("/done"),
            clear_command: String::from_str("/clear"),
            help_command: String::from_str("/help"),
            quit_commands,
            show_stats_command: String::from_str("/stats"),
        }
    }
}

/// How the posts are written out.
#[derive(Debug, Clone)]
pub struct OutputConfig {
    pub chunk_separator: String,
    pub emit_trailing_newline: bool,
}

impl Default for OutputConfig {
    fn default() -> (r: Self)
        ensures
            r.chunk_separator@ == "\n---\n"@,
            r.emit_trailing_newline,
    {
        OutputConfig { chunk_separator: String::from_str("\n---\n"), emit_trailing_newline: true }
    }
}

/// Settings of the log output.
#[derive(Debug, Clone)]
pub struct LoggingConfig {
    pub filter: String,
    pub ansi: bool,
    pub with_target: bool,
}

impl Default for LoggingConfig {
    fn default() -> (r: Self)
        ensures
            r.filter@ == "twitr=trace,info"@,
            r.ansi,
            !r.with_target,
    {
        LoggingConfig { filter: String::from_str("twitr=trace,info"), ansi: true, with_target: false }
    }
}

/// The whole configuration; every section falls back to its defaults.
#[derive(Debug, Clone)]
pub struct AppConfig {
    pub chunking: ChunkingConfig,
    pub repl: ReplConfig,
    pub output: OutputConfig,
    pub logging: LoggingConfig,
}

impl Default for AppConfig {
    fn default() -> (r: Self)
        ensures
            r.chunking.max_chars == 280,
            r.chunking.numbering,
            r.chunking.numbering_format@ == "{current}/{total} "@,
            r.chunking.suffix@ == Seq::<char>::empty(),
            r.chunking.preserve_paragraphs,
            !r.chunking.preserve_line_breaks,
            r.chunking.collapse_whitespace,
            r.chunking.split_sentences,
            r.chunking.paragraph_separator@ == "\n\n"@,
            r.repl.prompt@ == "twitr> "@,
            r.repl.done_command@ == "/done"@,
            r.repl.clear_command@ == "/clear"@,
            r.repl.help_command@ == "/help"@,
            r.repl.quit_commands@.len() == 2,
            r.repl.quit_commands@[0]@ == "/quit"@,
            r.repl.quit_commands@[1]@ == "/exit"@,
            r.repl.show_stats_command@ == "/stats"@,
            r.output.chunk_separator@ == "\n---\n"@,
            r.output.emit_trailing_newline,
            r.logging.filter@ == "twitr=trace,info"@,
            r.logging.ansi,
            !r.logging.with_target,
    {
        AppConfig {
            chunking: ChunkingConfig::default(),
            repl: ReplConfig::default(),
            output: OutputConfig::default(),
            logging: LoggingConfig::default(),
        }
    }
}

} // verus!
