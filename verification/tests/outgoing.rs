use mail_focus::models::{OutgoingAttachment, OutgoingMail};
use mail_focus::outgoing_mail::{
    accept_translation, append_signature, check_outgoing, check_professor_query,
    check_translation_text, compose_bodies, finish_professor_search, join_translations,
    parse_staff_directory, sender_display_name, split_utf8_chunks, StaffRecord,
};

fn record(name: &str, name_en: &str, email: &str, username: &str, title: &str, title_en: &str) -> StaffRecord {
    StaffRecord {
        name: name.into(),
        name_en: name_en.into(),
        email: email.into(),
        username: username.into(),
        title: title.into(),
        title_en: title_en.into(),
    }
}

fn outgoing(to: &[&str], subject: &str, text: &str, html: &str) -> OutgoingMail {
    OutgoingMail {
        to: to.iter().map(|s| s.to_string()).collect(),
        cc: vec![],
        bcc: vec![],
        subject: subject.into(),
        text_body: text.into(),
        html_body: html.into(),
        attachments: vec![],
    }
}

#[test]
fn parses_partial_names_from_the_official_staff_directory() {
    let records = vec![
        record("周小焱", "Xiaoyan ZHOU", "xiaoyanzhou@bnbu.edu.cn", "xiaoyanzhou", "助理教授", "Assistant Professor"),
        record("王鹏", "Peng WANG", "pengwang@bnbu.edu.cn", "pengwang", "教授", "Professor"),
    ];
    let contacts = parse_staff_directory(&records, "xiaoyan");
    assert_eq!(contacts.len(), 1);
    assert_eq!(contacts[0].name, "周小焱 · Xiaoyan ZHOU");
    assert_eq!(contacts[0].email, "xiaoyanzhou@bnbu.edu.cn");
    assert!(contacts[0].source_url.ends_with("#/xiaoyanzhou/cn"));
}

#[test]
fn directory_entries_outside_the_university_or_repeated_are_dropped() {
    let records = vec![
        record("", "", "  Li@BNBU.edu.cn ", "li li", "", ""),
        record("Li Again", "", "li@bnbu.edu.cn", "", "", ""),
        record("Li Other", "", "li@gmail.com", "", "", ""),
    ];
    let contacts = parse_staff_directory(&records, "LI");
    assert_eq!(contacts.len(), 1);
    assert_eq!(contacts[0].name, "li");
    assert_eq!(contacts[0].email, "li@bnbu.edu.cn");
    assert_eq!(contacts[0].department, "BNBU 教师");
    assert_eq!(contacts[0].source_url, "https://www.bnbu.edu.cn/faculty.htm#/list/people/cn.html");
}

#[test]
fn a_search_answer_is_ordered_by_name_and_capped() {
    let mut records = Vec::new();
    for i in (0..60).rev() {
        records.push(record(&format!("Name{:02}", i), "", &format!("p{}@bnbu.edu.cn", i), "", "", ""));
    }
    let contacts = finish_professor_search(Some(0), &records, "name").unwrap();
    assert_eq!(contacts.len(), 50);
    assert_eq!(contacts[0].name, "Name00");
    assert_eq!(contacts[49].name, "Name49");
    assert_eq!(finish_professor_search(Some(1), &records, "name").unwrap_err(), "BNBU 教师名录查询失败，请稍后重试");
    assert!(finish_professor_search(None, &records, "name").is_err());
}

#[test]
fn search_words_are_checked() {
    assert_eq!(check_professor_query("  zhou ").unwrap(), "zhou");
    assert_eq!(check_professor_query("   ").unwrap_err(), "请输入教授姓名的一部分");
    assert!(check_professor_query(&"x".repeat(61)).is_err());
    assert!(check_professor_query(&"x".repeat(60)).is_ok());
}

#[test]
fn splits_translation_text_without_breaking_utf8() {
    let chunks = split_utf8_chunks("Hello 世界, this is a longer sentence.", 10);
    assert!(chunks.len() > 1);
    assert_eq!(chunks.concat().replace(' ', ""), "Hello世界,thisisalongersentence.");
}

#[test]
fn short_texts_stay_whole_and_blank_chunks_are_dropped() {
    assert_eq!(split_utf8_chunks("  short  ", 450), vec!["short".to_string()]);
    assert!(split_utf8_chunks("   ", 1).is_empty());
    assert_eq!(split_utf8_chunks("ab cd", 2), vec!["ab".to_string(), "cd".to_string()]);
}

#[test]
fn translation_texts_and_answers_are_checked() {
    assert_eq!(check_translation_text("  hi ").unwrap(), "hi");
    assert_eq!(check_translation_text(" ").unwrap_err(), "邮件正文为空");
    assert_eq!(check_translation_text(&"a".repeat(12001)).unwrap_err(), "邮件正文过长，请展开后选择需要翻译的部分");
    assert_eq!(accept_translation(Some(" 你好 ".into())).unwrap(), "你好");
    assert_eq!(accept_translation(None).unwrap_err(), "翻译服务没有返回译文");
    assert_eq!(join_translations(&vec!["一".to_string(), "二".to_string()]), "一\n二");
}

#[test]
fn appends_the_bnbu_signature_to_both_mail_formats() {
    let (text, html) = append_signature("Hello".into(), "<p>Hello</p>".into(), "Student Name");
    assert!(text.ends_with("北师港浸大 BNBU\nStudent Name"));
    assert!(html.contains("北师港浸大 BNBU"));
    assert!(html.contains("Student Name"));
}

#[test]
fn signature_escapes_the_name_and_is_skipped_without_one() {
    let (text, html) = append_signature("Hi  \n".into(), "<p>Hi</p>\n".into(), " A&B <x> \"q\" ");
    assert_eq!(text, "Hi\n\n北师港浸大 BNBU\nA&B <x> \"q\"");
    assert!(html.starts_with("<p>Hi</p><div"));
    assert!(html.ends_with("<strong>A&amp;B &lt;x&gt; &quot;q&quot;</strong></div>"));
    assert_eq!(append_signature("x".into(), "y".into(), "  "), ("x".to_string(), "y".to_string()));
}

#[test]
fn outgoing_mail_needs_recipient_subject_and_body() {
    assert_eq!(check_outgoing("me@bnbu.edu.cn", &outgoing(&[], "s", "t", "")).unwrap_err(), "请至少填写一位收件人");
    assert_eq!(check_outgoing("me@bnbu.edu.cn", &outgoing(&["a@b.com"], " ", "t", "")).unwrap_err(), "请填写邮件主题");
    assert_eq!(check_outgoing("me@bnbu.edu.cn", &outgoing(&["a@b.com"], "s", " ", " ")).unwrap_err(), "请填写邮件正文");
    assert_eq!(check_outgoing("not an address", &outgoing(&["a@b.com"], "s", "t", "")).unwrap_err(), "发件邮箱格式无效");
    assert_eq!(check_outgoing("me@bnbu.edu.cn", &outgoing(&["a@b.com", " bad "], "s", "t", "")).unwrap_err(), "邮箱地址格式无效： bad ");
    assert!(check_outgoing("me@bnbu.edu.cn", &outgoing(&[" Ann <a@b.com> "], "s", "", "<p>x</p>")).is_ok());
}

#[test]
fn attachments_are_checked() {
    let mut m = outgoing(&["a@b.com"], "s", "t", "");
    m.attachments.push(OutgoingAttachment { name: "a.txt".into(), mime_type: "text/plain".into(), data_base64: "aGVsbG8=".into() });
    assert!(check_outgoing("me@bnbu.edu.cn", &m).is_ok());
    m.attachments.push(OutgoingAttachment { name: " ".into(), mime_type: "".into(), data_base64: "".into() });
    assert_eq!(check_outgoing("me@bnbu.edu.cn", &m).unwrap_err(), "附件名称不能为空");
    m.attachments.pop();
    m.attachments.push(OutgoingAttachment { name: "b.bin".into(), mime_type: "".into(), data_base64: "***".into() });
    assert_eq!(check_outgoing("me@bnbu.edu.cn", &m).unwrap_err(), "附件 b.bin 数据无效");
}

#[test]
fn bodies_are_sanitised_rendered_and_signed() {
    let m = outgoing(&["a@b.com"], "s", "", "<p onclick=\"x()\">Hi</p><script>alert(1)</script>");
    let (text, html) = compose_bodies(&m, "Ann").unwrap();
    assert!(html.starts_with("<p>Hi</p><div"));
    assert!(!html.contains("script"));
    assert!(text.starts_with("Hi"));
    assert!(text.ends_with("北师港浸大 BNBU\nAnn"));
    let written = outgoing(&["a@b.com"], "s", "typed", "<p>Hi</p>");
    let (text2, _) = compose_bodies(&written, "").unwrap();
    assert_eq!(text2, "typed");
}

#[test]
fn the_sender_name_is_trimmed_or_left_out() {
    assert_eq!(sender_display_name("  Ann Li "), Some("Ann Li".to_string()));
    assert_eq!(sender_display_name("   "), None);
}
