//! Tests of the sync-driver parsers and notification text.

use mu::sync::{
    notification_text, parse_channel_list, parse_mbsync_output, parse_new_messages,
    parse_notmuch_line, truncate, NewMessage, SyncStats,
};

#[test]
fn test_parse_notmuch_line() {
    let line = "thread:000000000000000a  2026-02-16 [1/1] Google; Security alert (inbox)";
    let msg = parse_notmuch_line(line).unwrap();
    assert_eq!(msg.sender, "Google");
    assert_eq!(msg.subject, "Security alert");
}

#[test]
fn test_truncate() {
    assert_eq!(truncate("hello", 10), "hello");
    assert_eq!(truncate("hello world", 8), "hello w\u{2026}");
}

#[test]
fn notmuch_line_without_semicolon_is_skipped() {
    assert!(parse_notmuch_line("thread:01  2026-02-16 [1/1] no subject separator").is_none());
    assert!(parse_notmuch_line("too short").is_none());
}

#[test]
fn parse_new_messages_collects_lines() {
    let output = "thread:01  2026-02-16 [1/1] Alice; First mail (inbox)\n\n\
                  thread:02  2026-02-16 [1/1] Bob; Second mail (inbox unread)";
    let msgs = parse_new_messages(output);
    assert_eq!(msgs.len(), 2);
    assert_eq!(msgs[0].sender, "Alice");
    assert_eq!(msgs[0].subject, "First mail");
    assert_eq!(msgs[1].sender, "Bob");
    assert_eq!(msgs[1].subject, "Second mail");
}

#[test]
fn mbsync_summary_counts() {
    let stdout = "Channels: 1    Boxes: 1    Far: +3 *2 #0 -1    Near: +4 *0 #0 -0";
    let stats = parse_mbsync_output(stdout, "");
    assert_eq!(stats.new_msgs, 7);
    assert_eq!(stats.flags, 2);
    assert_eq!(stats.deleted, 1);
    assert!(stats.has_activity());
}

#[test]
fn mbsync_quiet_run_has_no_activity() {
    let stdout = "Channels: 1    Boxes: 1    Far: +0 *0 #0 -0    Near: +0 *0 #0 -0";
    let stats = parse_mbsync_output(stdout, "");
    assert!(!stats.has_activity());
    let none = parse_mbsync_output("no summary here", "nothing either");
    assert_eq!(none.new_msgs, 0);
    assert_eq!(none.flags, 0);
    assert_eq!(none.deleted, 0);
}

#[test]
fn mbsync_counts_ignore_other_lines() {
    let stdout = "Far: +9 (not a summary, no near marker)";
    let stats = parse_mbsync_output(stdout, "");
    assert_eq!(stats.new_msgs, 0);
}

#[test]
fn sync_stats_default_is_zero() {
    let stats = SyncStats::default();
    assert!(!stats.has_activity());
}

#[test]
fn channel_list_full_mode_skips_inbox() {
    let config = "Channel work\nChannel work-inbox\nIMAPAccount work";
    let full = parse_channel_list(config, false);
    assert_eq!(full, vec!["work".to_string()]);
    let quick = parse_channel_list(config, true);
    assert_eq!(quick, vec!["work-inbox".to_string()]);
}

#[test]
fn channel_list_falls_back_to_all() {
    let channels = parse_channel_list("no channel lines here", false);
    assert_eq!(channels, vec!["-a".to_string()]);
}

#[test]
fn notification_for_one_message() {
    let msgs = vec![NewMessage {
        sender: "Google".to_string(),
        subject: "Security alert".to_string(),
    }];
    let (title, body) = notification_text(&msgs);
    assert_eq!(title, "New mail from Google");
    assert_eq!(body, "Security alert");
}

#[test]
fn notification_for_several_messages() {
    let msgs = vec![
        NewMessage { sender: "Alice".to_string(), subject: "First".to_string() },
        NewMessage { sender: "Bob".to_string(), subject: "Second".to_string() },
    ];
    let (title, body) = notification_text(&msgs);
    assert_eq!(title, "2 new messages");
    assert_eq!(body, "\u{2022} Alice: First\n\u{2022} Bob: Second");
}

#[test]
fn notification_truncates_long_fields() {
    let msgs = vec![
        NewMessage {
            sender: "A very long sender name indeed".to_string(),
            subject: "An even longer subject line that goes on".to_string(),
        },
        NewMessage { sender: "B".to_string(), subject: "x".to_string() },
    ];
    let (_, body) = notification_text(&msgs);
    let first = body.lines().next().unwrap();
    assert!(first.contains("A very long sender \u{2026}"));
    assert!(first.contains('\u{2026}'));
}
