use journey_bot::streams::TwitchScheduler;

#[test]
fn markdown_characters_are_escaped() {
    assert_eq!(
        TwitchScheduler::escape("stream_title *live* now|`go`"),
        "stream\\_title \\*live\\* now\\|\\`go\\`"
    );
    assert_eq!(TwitchScheduler::escape("~tilde~"), "\\~tilde\\~");
}

#[test]
fn plain_text_passes_through_unchanged() {
    assert_eq!(TwitchScheduler::escape("a plain title"), "a plain title");
    assert_eq!(TwitchScheduler::escape(""), "");
}
