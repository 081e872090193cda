use mail_focus::mail_provider::{
    baseline_uid, fetch_sets, new_uids, normalize_body_text, recipients_of, split_address,
    try_parse_message, uid_search_query,
};

#[test]
fn decodes_non_breaking_space_entities_in_mail_text() {
    let text = normalize_body_text("·&nbsp; A ·&amp;nbsp; B ·&#160; C ·&#xA0; 16:00。".into());
    assert_eq!(text, "·  A ·  B ·  C ·  16:00。");
}

#[test]
fn lower_case_hex_entities_and_raw_nbsp_become_spaces() {
    assert_eq!(normalize_body_text("a&#xa0;b\u{a0}c".into()), "a b c");
}

#[test]
fn addresses_split_into_name_and_email() {
    assert_eq!(split_address("\"Zhou, X\" <x@bnbu.edu.cn>"), ("Zhou, X".to_string(), "x@bnbu.edu.cn".to_string()));
    assert_eq!(split_address("  y@example.com "), ("y@example.com".to_string(), "y@example.com".to_string()));
    assert_eq!(split_address("<only@x.org>"), ("".to_string(), "only@x.org".to_string()));
}

#[test]
fn recipients_are_the_emails_of_the_to_header() {
    assert_eq!(
        recipients_of("A <a@x.com>, b@y.com, ,"),
        vec!["a@x.com".to_string(), "b@y.com".to_string()]
    );
}

#[test]
fn a_plain_message_is_read() {
    let raw = b"From: Teacher <t@bnbu.edu.cn>\r\nTo: s@bnbu.edu.cn, other <o@bnbu.edu.cn>\r\nSubject: Hello\r\nDate: Fri, 28 Aug 2026 08:00:00 +0800\r\nContent-Type: text/plain; charset=utf-8\r\n\r\nSee you&nbsp;soon\r\n";
    let mail = try_parse_message(7, raw, true, "fallback").unwrap().unwrap();
    assert_eq!(mail.uid, 7);
    assert_eq!(mail.sender_name, "Teacher");
    assert_eq!(mail.sender_email, "t@bnbu.edu.cn");
    assert_eq!(mail.recipients, vec!["s@bnbu.edu.cn".to_string(), "o@bnbu.edu.cn".to_string()]);
    assert_eq!(mail.subject, "Hello");
    assert_eq!(mail.received_at, "2026-08-28T00:00:00+00:00");
    assert!(mail.body_text.starts_with("See you soon"));
    assert!(mail.is_read);
}

#[test]
fn missing_subject_and_date_fall_back() {
    let raw = b"From: a@x.com\r\n\r\nbody";
    let mail = try_parse_message(1, raw, false, "2026-01-01T00:00:00+00:00").unwrap().unwrap();
    assert_eq!(mail.subject, "（无主题）");
    assert_eq!(mail.received_at, "2026-01-01T00:00:00+00:00");
    assert!(mail.recipients.is_empty());
}

#[test]
fn multipart_messages_prefer_the_plain_part() {
    let raw = b"From: a@x.com\r\nContent-Type: multipart/alternative; boundary=XX\r\n\r\n--XX\r\nContent-Type: text/html\r\n\r\n<b>rich</b>\r\n--XX\r\nContent-Type: text/plain\r\n\r\nplain text\r\n--XX--\r\n";
    let mail = try_parse_message(2, raw, false, "t").unwrap().unwrap();
    assert!(mail.body_text.starts_with("plain text"));
}

#[test]
fn html_only_messages_are_rendered() {
    let raw = b"From: a@x.com\r\nContent-Type: text/html\r\n\r\n<p>Hi there</p>";
    let mail = try_parse_message(3, raw, false, "t").unwrap().unwrap();
    assert_eq!(mail.body_text.trim(), "Hi there");
}

#[test]
fn first_sync_starts_below_the_next_uid() {
    assert_eq!(baseline_uid(Some(100)), 99);
    assert_eq!(baseline_uid(Some(0)), 0);
    assert_eq!(baseline_uid(None), 0);
}

#[test]
fn the_search_asks_for_later_uids() {
    assert_eq!(uid_search_query(41), "UID 42:*");
    assert_eq!(uid_search_query(u32::MAX), "UID 4294967295:*");
}

#[test]
fn only_newer_uids_are_kept_in_order() {
    let (uids, last) = new_uids(&[9, 3, 12, 10, 7], 8);
    assert_eq!(uids, vec![9, 10, 12]);
    assert_eq!(last, 12);
    let (none, same) = new_uids(&[1, 2], 8);
    assert!(none.is_empty());
    assert_eq!(same, 8);
}

#[test]
fn fetches_go_in_groups_of_twenty_five() {
    let uids: Vec<u32> = (1..=27).collect();
    let sets = fetch_sets(&uids);
    assert_eq!(sets.len(), 2);
    assert!(sets[0].starts_with("1,2,3,"));
    assert!(sets[0].ends_with(",25"));
    assert_eq!(sets[1], "26,27");
    assert!(fetch_sets(&[]).is_empty());
}

#[test]
fn the_fetch_groups_joined_are_the_uids() {
    let uids: Vec<u32> = (100..160).collect();
    let joined = fetch_sets(&uids).join(",");
    let expected = uids.iter().map(|u| u.to_string()).collect::<Vec<_>>().join(",");
    assert_eq!(joined, expected);
}

#[test]
fn attachments_give_no_text() {
    let raw = b"From: a@x.com\r\nContent-Type: multipart/mixed; boundary=B\r\n\r\n--B\r\nContent-Type: text/html\r\n\r\n<p>Body</p>\r\n--B\r\nContent-Type: text/csv\r\nContent-Disposition: attachment; filename=a.csv\r\n\r\nsecret,data\r\n--B--\r\n";
    let mail = try_parse_message(4, raw, false, "t").unwrap().unwrap();
    assert_eq!(mail.body_text.trim(), "Body");
}

#[test]
fn a_plain_attachment_is_not_taken_for_the_text() {
    let raw = b"From: a@x.com\r\nContent-Type: multipart/mixed; boundary=B\r\n\r\n--B\r\nContent-Type: text/plain\r\nContent-Disposition: attachment; filename=notes.txt\r\n\r\nattached notes\r\n--B\r\nContent-Type: text/html\r\n\r\n<p>Body</p>\r\n--B--\r\n";
    let mail = try_parse_message(5, raw, false, "t").unwrap().unwrap();
    assert_eq!(mail.body_text.trim(), "Body");
}

#[test]
fn normalising_twice_changes_nothing() {
    let once = normalize_body_text("a&amp;&nbsp;nbsp;b\u{a0}".into());
    assert_eq!(normalize_body_text(once.clone()), once);
    assert_eq!(normalize_body_text("plain text".into()), "plain text");
}
