//! The decisions of the interactive session: what a typed line means and
//! what the session answers. Reading lines and writing answers is left to
//! the caller.
use vstd::prelude::*;
use vstd::string::*;

use crate::chunking::{ChunkError, chunk_text, spec_chunk_text, texts};
use crate::config::{AppConfig, ReplConfig};
use crate::output::{ChunkedOutput, InputSource};
use crate::text::{
    chars_of, copy_range, decimal, decimal_of, join, same_chars, string_of, string_push, trim,
    trim_chars,
};

verus! {

/// What a line typed in the session asks for.
#[derive(Debug, Clone, Copy, PartialEq, Eq, Structural)]
pub enum ReplCommand {
    Help,
    Clear,
    Stats,
    Quit,
    Done,
    /// Not a command: text to add to the buffer.
    Text,
}

/// The command of `line`: its trimmed text compared with the configured
/// commands, in the order help, clear, stats, quit, done.
pub open spec fn spec_classify(config: ReplConfig, line: Seq<char>) -> ReplCommand {
    let t = trim(line);
    if t == config.help_command@ {
        ReplCommand::Help
    } else if t == config.clear_command@ {
        ReplCommand::Clear
    } else if t == config.show_stats_command@ {
        ReplCommand::Stats
    } else if exists|k: int| 0 <= k < config.quit_commands@.len() && #[trigger] config.quit_commands@[k]@ == t {
        ReplCommand::Quit
    } else if t == config.done_command@ {
        ReplCommand::Done
    } else {
        ReplCommand::Text
    }
}

/// Reads the command of a typed line.
pub fn classify_line(config: &ReplConfig, line: &str) -> (r: ReplCommand)
    ensures
        r == spec_classify(*config, line@),
{
    let t = trim_chars(&chars_of(line));
    if same_chars(&t, &chars_of(config.help_command.as_str())) {
        return ReplCommand::Help;
    }
    if same_chars(&t, &chars_of(config.clear_command.as_str())) {
        return ReplCommand::Clear;
    }
    if same_chars(&t, &chars_of(config.show_stats_command.as_str())) {
        return ReplCommand::Stats;
    }
    let mut i: usize = 0;
    while i < config.quit_commands.len()
        invariant
            i <= config.quit_commands@.len(),
            t@ == trim(line@),
            t@ != config.help_command@,
            t@ != config.clear_command@,
            t@ != config.show_stats_command@,
            forall|k: int| 0 <= k < i ==> #[trigger] config.quit_commands@[k]@ != t@,
        decreases config.quit_commands.len() - i,
    {
        if same_chars(&t, &chars_of(config.quit_commands[i].as_str())) {
            assert(config.quit_commands@[i as int]@ == t@);
            return ReplCommand::Quit;
        }
        i += 1;
    }
    if same_chars(&t, &chars_of(config.done_command.as_str())) {
        return ReplCommand::Done;
    }
    ReplCommand::Text
}

/// `s` without its trailing carriage returns and line feeds.
pub open spec fn strip_line_end(s: Seq<char>) -> Seq<char>
    decreases s.len(),
{
    if s.len() > 0 && (s.last() == '\r' || s.last() == '\n') {
        strip_line_end(s.drop_last())
    } else {
        s
    }
}

/// The buffer after `line` is added: on a new line unless the buffer is
/// empty, without the line's own line ending.
pub open spec fn append_line(buffer: Seq<char>, line: Seq<char>) -> Seq<char> {
    (if buffer.len() > 0 {
        buffer.push('\n')
    } else {
        buffer
    }) + strip_line_end(line)
}

/// The list of commands shown on request.
pub open spec fn help_text(config: ReplConfig) -> Seq<char> {
    let quits = Seq::new(config.quit_commands@.len(), |k: int| config.quit_commands@[k]@);
    "commands: "@ + config.done_command@ + " "@ + config.clear_command@ + " "@
        + config.show_stats_command@ + " "@ + join(quits, " "@) + " "@ + config.help_command@
}

/// The greeting shown when the session starts.
pub open spec fn banner_text(config: ReplConfig) -> Seq<char> {
    "REPL mode. Paste text, then run "@ + config.done_command@ + " to chunk it. Use "@
        + config.help_command@ + " for commands. rlwrap works fine here."@
}

/// The greeting shown when the session starts.
pub fn banner(config: &ReplConfig) -> (r: String)
    ensures
        r@ == banner_text(*config),
{
    let mut r = String::from_str("REPL mode. Paste text, then run ");
    r.append(config.done_command.as_str());
    r.append(" to chunk it. Use ");
    r.append(config.help_command.as_str());
    r.append(" for commands. rlwrap works fine here.");
    r
}

/// The list of commands shown on request.
pub fn help_message(config: &ReplConfig) -> (r: String)
    ensures
        r@ == help_text(*config),
{
    let mut r = String::from_str("commands: ");
    r.append(config.done_command.as_str());
    r.append(" ");
    r.append(config.clear_command.as_str());
    r.append(" ");
    r.append(config.show_stats_command.as_str());
    r.append(" ");
    let ghost quits = Seq::new(config.quit_commands@.len(), |k: int| config.quit_commands@[k]@);
    let ghost before = r@;
    let mut i: usize = 0;
    while i < config.quit_commands.len()
        invariant
            i <= config.quit_commands@.len(),
            quits == Seq::new(config.quit_commands@.len(), |k: int| config.quit_commands@[k]@),
            r@ == before + join(quits.take(i as int), " "@),
        decreases config.quit_commands.len() - i,
    {
        proof {
            assert(quits.take(i + 1).drop_last() =~= quits.take(i as int));
        }
        if i > 0 {
            r.append(" ");
        }
        r.append(config.quit_commands[i].as_str());
        proof {
            if i == 0 {
                assert(join(quits.take(1), " "@) == quits[0]);
                assert(r@ =~= before + join(quits.take(1), " "@));
            } else {
                assert(r@ =~= before + join(quits.take(i + 1), " "@));
            }
        }
        i += 1;
    }
    proof {
        assert(quits.take(config.quit_commands.len() as int) =~= quits);
    }
    r.append(" ");
    r.append(config.help_command.as_str());
    r
}

/// What the session does after a line.
#[derive(Debug)]
pub enum ReplReply {
    /// Show this text and read on.
    Say(String),
    /// The line was added to the buffer; read on.
    Appended,
    /// The session is over with these posts.
    Finished(ChunkedOutput),
    /// Cutting the buffer failed; the session ends with this error.
    Failed(ChunkError),
}

/// The text typed so far.
pub struct ReplSession {
    pub buffer: String,
}

/// The output of the session for `buffer`, or the error of cutting it.
pub open spec fn finished_as(r: Result<ChunkedOutput, ChunkError>, buffer: Seq<char>, config: AppConfig) -> bool {
    match r {
        Ok(out) => {
            &&& out.source == InputSource::Repl
            &&& out.original_length == buffer.len()
            &&& spec_chunk_text(buffer, config.chunking) == Ok::<Seq<Seq<char>>, ChunkError>(
                texts(out.chunks@),
            )
        },
        Err(e) => spec_chunk_text(buffer, config.chunking) == Err::<Seq<Seq<char>>, ChunkError>(e),
    }
}

impl ReplSession {
    /// A session with an empty buffer.
    pub fn new() -> (s: Self)
        ensures
            s.buffer@ == Seq::<char>::empty(),
    {
        ReplSession { buffer: String::new() }
    }

    /// Cuts the buffer into posts; this ends the session.
    pub fn finish(&self, config: &AppConfig) -> (r: Result<ChunkedOutput, ChunkError>)
        ensures
            finished_as(r, self.buffer@, *config),
    {
        let chunks = chunk_text(self.buffer.as_str(), &config.chunking)?;
        let original_length = chars_of(self.buffer.as_str()).len();
        Ok(ChunkedOutput { source: InputSource::Repl, original_length, chunks })
    }

    /// Handles one typed line.
    pub fn handle_line(&mut self, config: &AppConfig, line: &str) -> (r: ReplReply)
        ensures
            match spec_classify(config.repl, line@) {
                ReplCommand::Help => {
                    &&& r matches ReplReply::Say(m) && m@ == help_text(config.repl)
                    &&& final(self).buffer@ == old(self).buffer@
                },
                ReplCommand::Clear => {
                    &&& r matches ReplReply::Say(m) && m@ == "buffer cleared"@
                    &&& final(self).buffer@ == Seq::<char>::empty()
                },
                ReplCommand::Stats => {
                    &&& r matches ReplReply::Say(m) && m@ == "buffer chars: "@ + decimal(
                        old(self).buffer@.len(),
                    )
                    &&& final(self).buffer@ == old(self).buffer@
                },
                ReplCommand::Quit => {
                    &&& r matches ReplReply::Finished(out) && out.source == InputSource::Repl
                        && out.original_length == 0 && out.chunks@.len() == 0
                    &&& final(self).buffer@ == old(self).buffer@
                },
                ReplCommand::Done => {
                    &&& match r {
                        ReplReply::Finished(out) => finished_as(
                            Ok(out),
                            old(self).buffer@,
                            *config,
                        ),
                        ReplReply::Failed(e) => finished_as(Err(e), old(self).buffer@, *config),
                        _ => false,
                    }
                    &&& final(self).buffer@ == old(self).buffer@
                },
                ReplCommand::Text => {
                    &&& r is Appended
                    &&& final(self).buffer@ == append_line(old(self).buffer@, line@)
                },
            },
    {
        match classify_line(&config.repl, line) {
            ReplCommand::Help => ReplReply::Say(help_message(&config.repl)),
            ReplCommand::Clear => {
                self.buffer = String::new();
                ReplReply::Say(String::from_str("buffer cleared"))
            },
            ReplCommand::Stats => {
                let count = chars_of(self.buffer.as_str()).len();
                let mut m = String::from_str("buffer chars: ");
                let digits = string_of(&decimal_of(count as u128));
                m.append(digits.as_str());
                ReplReply::Say(m)
            },
            ReplCommand::Quit => ReplReply::Finished(
                ChunkedOutput { source: InputSource::Repl, original_length: 0, chunks: Vec::new() },
            ),
            ReplCommand::Done => match self.finish(config) {
                Ok(out) => ReplReply::Finished(out),
                Err(e) => ReplReply::Failed(e),
            },
            ReplCommand::Text => {
                let chars = chars_of(line);
                let mut end = chars.len();
                assert(chars@.take(end as int) =~= chars@);
                while end > 0 && (chars[end - 1] == '\r' || chars[end - 1] == '\n')
                    invariant
                        end <= chars@.len(),
                        chars@ == line@,
                        strip_line_end(chars@.take(end as int)) == strip_line_end(line@),
                    decreases end,
                {
                    proof {
                        assert(chars@.take(end as int).drop_last() =~= chars@.take(end - 1));
                    }
                    end -= 1;
                }
                let kept = copy_range(&chars, 0, end);
                assert(kept@ =~= chars@.take(end as int));
                if !self.buffer.as_str().is_empty() {
                    string_push(&mut self.buffer, '\n');
                }
                let piece = string_of(&kept);
                self.buffer.append(piece.as_str());
                ReplReply::Appended
            },
        }
    }
}

} // verus!
