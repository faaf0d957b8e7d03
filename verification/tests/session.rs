use twitr::{
    AppConfig, ChunkedOutput, InputSource, OutputConfig, ReplCommand, ReplReply, ReplSession,
    banner, chunk_file, classify_line, help_message, render_chunks,
};

#[test]
fn labels_name_the_source() {
    assert_eq!(InputSource::File("notes/draft.txt".to_string()).label(), "file:notes/draft.txt");
    assert_eq!(InputSource::Repl.label(), "repl");
}

#[test]
fn defaults_match_the_documented_values() {
    let config = AppConfig::default();
    assert_eq!(config.chunking.max_chars, 280);
    assert_eq!(config.chunking.numbering_format, "{current}/{total} ");
    assert_eq!(config.repl.done_command, "/done");
    assert_eq!(config.repl.quit_commands, vec!["/quit", "/exit"]);
    assert_eq!(config.output.chunk_separator, "\n---\n");
    assert_eq!(config.logging.filter, "twitr=trace,info");
}

#[test]
fn file_output_counts_characters() {
    let mut config = AppConfig::default();
    config.chunking.numbering = false;
    let out = chunk_file("in.txt".to_string(), "héllo wörld", &config).unwrap();
    assert_eq!(out.original_length, 11);
    assert_eq!(out.chunks, vec!["héllo wörld"]);
    assert_eq!(out.source.label(), "file:in.txt");
}

#[test]
fn rendering_joins_posts_with_the_separator() {
    let output = ChunkedOutput {
        source: InputSource::Repl,
        original_length: 3,
        chunks: vec!["a".to_string(), "b".to_string()],
    };
    let config = OutputConfig::default();
    assert_eq!(render_chunks(&output, &config), "a\n---\nb\n");
    let bare = OutputConfig { chunk_separator: "|".to_string(), emit_trailing_newline: false };
    assert_eq!(render_chunks(&output, &bare), "a|b");
    let empty = ChunkedOutput { source: InputSource::Repl, original_length: 0, chunks: vec![] };
    assert_eq!(render_chunks(&empty, &config), "\n");
    assert_eq!(render_chunks(&empty, &bare), "");
}

#[test]
fn commands_are_recognised_after_trimming() {
    let config = AppConfig::default().repl;
    assert_eq!(classify_line(&config, "  /help \n"), ReplCommand::Help);
    assert_eq!(classify_line(&config, "/clear"), ReplCommand::Clear);
    assert_eq!(classify_line(&config, "/stats"), ReplCommand::Stats);
    assert_eq!(classify_line(&config, "/exit"), ReplCommand::Quit);
    assert_eq!(classify_line(&config, "/done\r\n"), ReplCommand::Done);
    assert_eq!(classify_line(&config, "/don"), ReplCommand::Text);
}

#[test]
fn session_messages() {
    let config = AppConfig::default().repl;
    assert_eq!(help_message(&config), "commands: /done /clear /stats /quit /exit /help");
    assert_eq!(
        banner(&config),
        "REPL mode. Paste text, then run /done to chunk it. Use /help for commands. rlwrap works fine here."
    );
}

#[test]
fn session_collects_lines_and_chunks_them() {
    let mut config = AppConfig::default();
    config.chunking.numbering = false;
    let mut session = ReplSession::new();
    assert!(matches!(session.handle_line(&config, "hello\r\n"), ReplReply::Appended));
    assert!(matches!(session.handle_line(&config, "world\n"), ReplReply::Appended));
    assert_eq!(session.buffer, "hello\nworld");
    match session.handle_line(&config, "/stats\n") {
        ReplReply::Say(m) => assert_eq!(m, "buffer chars: 11"),
        other => panic!("unexpected {:?}", other),
    }
    match session.handle_line(&config, "/done\n") {
        ReplReply::Finished(out) => {
            assert_eq!(out.original_length, 11);
            assert_eq!(out.chunks, vec!["hello world"]);
            assert_eq!(out.source.label(), "repl");
        }
        other => panic!("unexpected {:?}", other),
    }
}

#[test]
fn session_clear_and_quit() {
    let config = AppConfig::default();
    let mut session = ReplSession::new();
    session.handle_line(&config, "text");
    match session.handle_line(&config, "/clear") {
        ReplReply::Say(m) => assert_eq!(m, "buffer cleared"),
        other => panic!("unexpected {:?}", other),
    }
    assert_eq!(session.buffer, "");
    session.handle_line(&config, "more");
    match session.handle_line(&config, "/quit") {
        ReplReply::Finished(out) => {
            assert_eq!(out.original_length, 0);
            assert!(out.chunks.is_empty());
        }
        other => panic!("unexpected {:?}", other),
    }
    assert_eq!(session.buffer, "more");
}

#[test]
fn session_reports_chunking_errors() {
    let mut config = AppConfig::default();
    config.chunking.max_chars = 0;
    let mut session = ReplSession::new();
    session.handle_line(&config, "text");
    assert!(matches!(session.handle_line(&config, "/done"), ReplReply::Failed(_)));
    assert!(session.finish(&config).is_err());
}
