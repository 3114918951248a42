use hello_egui::chat::{timed_transcript_is_wf, transcript_is_wf, HistoryLoader};

const HISTORY: &str = "alice: hi\nme: hello\n\nbob: yo\n";
const MESSAGES: &str = "bob, 0.5: sup\nme, 1: hey\nalice, 1.234: long time\n";

#[test]
fn parses_history_reversed_and_repeated() {
    let hl = HistoryLoader::new(HISTORY, MESSAGES);
    // Three messages, newest first, repeated five times.
    assert_eq!(hl.history.len(), 15);
    assert_eq!(hl.history[0].content, "yo");
    assert_eq!(hl.history[0].from.as_deref(), Some("bob"));
    assert_eq!(hl.history[1].content, "hello");
    assert_eq!(hl.history[1].from, None);
    assert_eq!(hl.history[2].content, "hi");
    assert_eq!(hl.history[2].from.as_deref(), Some("alice"));
    // The second copy starts where the first ended.
    assert_eq!(hl.history[3].content, "yo");
    assert_eq!(hl.history[14].content, "hi");
}

#[test]
fn parses_timed_messages_in_order() {
    let hl = HistoryLoader::new(HISTORY, MESSAGES);
    assert_eq!(hl.messages.len(), 3);
    assert_eq!(hl.messages[0].0.content, "sup");
    assert_eq!(hl.messages[0].0.from.as_deref(), Some("bob"));
    assert_eq!(hl.messages[0].1, 500);
    assert_eq!(hl.messages[1].0.content, "hey");
    assert_eq!(hl.messages[1].0.from, None);
    assert_eq!(hl.messages[1].1, 1000);
    assert_eq!(hl.messages[2].1, 1234);
}

#[test]
fn duration_forms() {
    let hl = HistoryLoader::new("", "a, .5: x\nb, 2: y\nc, 0.25: z\nd, 3.: w\n");
    assert_eq!(hl.messages[0].1, 500);
    assert_eq!(hl.messages[1].1, 2000);
    assert_eq!(hl.messages[2].1, 250);
    assert_eq!(hl.messages[3].1, 3000);
}

#[test]
fn content_keeps_later_separators() {
    let hl = HistoryLoader::new("alice: see: this\n", "");
    assert_eq!(hl.history[0].content, "see: this");
    assert_eq!(hl.history[0].from.as_deref(), Some("alice"));
}

#[test]
fn load_pages_through_history() {
    let hl = HistoryLoader::new(HISTORY, "");
    assert_eq!(hl.history.len(), 15);
    let (page0, next0) = hl.load(None);
    assert_eq!(page0.len(), 10);
    assert_eq!(next0, Some(1));
    // A page comes back reversed: its last element is the stack's start.
    assert_eq!(page0[9].content, hl.history[0].content);
    assert_eq!(page0[0].content, hl.history[9].content);
    let (page1, next1) = hl.load(next0);
    assert_eq!(page1.len(), 5);
    assert_eq!(next1, None);
    assert_eq!(page1[0].content, hl.history[14].content);
}

#[test]
fn empty_transcripts_parse_empty() {
    let hl = HistoryLoader::new("", "");
    assert_eq!(hl.history.len(), 0);
    assert_eq!(hl.messages.len(), 0);
    let (page, next) = hl.load(None);
    assert_eq!(page.len(), 0);
    assert_eq!(next, None);
}

#[test]
fn carriage_return_newlines_are_line_endings() {
    let hl = HistoryLoader::new(
        "alice: hi\r\nme: hello\r\n",
        "bob, 0.5: sup\r\n",
    );
    assert_eq!(hl.history.len(), 10);
    assert_eq!(hl.history[0].content, "hello");
    assert_eq!(hl.history[1].content, "hi");
    assert_eq!(hl.history[1].from.as_deref(), Some("alice"));
    assert_eq!(hl.messages.len(), 1);
    assert_eq!(hl.messages[0].0.content, "sup");
    assert_eq!(hl.messages[0].1, 500);
}

#[test]
fn wf_checks_accept_good_transcripts() {
    assert!(transcript_is_wf(HISTORY));
    assert!(transcript_is_wf(""));
    assert!(transcript_is_wf("a: b\r\n\r\nc: d"));
    assert!(timed_transcript_is_wf(MESSAGES));
    assert!(timed_transcript_is_wf("x, 999999.999: ok\n"));
}

#[test]
fn wf_checks_reject_bad_transcripts() {
    // A nonempty line without the separator.
    assert!(!transcript_is_wf("no separator here\n"));
    assert!(!transcript_is_wf("a: b\nbroken\n"));
    // Timed lines must carry a delay and a parsable duration.
    assert!(!timed_transcript_is_wf("alice: hi\n"));
    assert!(!timed_transcript_is_wf("a, 1e3: hi\n"));
    assert!(!timed_transcript_is_wf("a, 1.2345: hi\n"));
    assert!(!timed_transcript_is_wf("a, 1234567: hi\n"));
}
