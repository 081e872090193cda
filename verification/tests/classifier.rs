use mail_focus::classifier::{classify, deciding_rule, domain_part, rule_applies};
use mail_focus::commands::classify_batch;
use mail_focus::models::{ClassificationRule, ParsedMail};

fn mail(uid: u32, sender_name: &str, sender_email: &str, subject: &str, body_text: &str) -> ParsedMail {
    ParsedMail {
        uid,
        sender_name: sender_name.into(),
        sender_email: sender_email.into(),
        recipients: vec![],
        subject: subject.into(),
        received_at: "".into(),
        body_text: body_text.into(),
        is_read: false,
    }
}

fn rule(id: &str, category: &str, field: &str, operator: &str, value: &str, priority: i32, enabled: bool) -> ClassificationRule {
    ClassificationRule {
        id: id.into(),
        category: category.into(),
        field: field.into(),
        operator: operator.into(),
        value: value.into(),
        priority,
        enabled,
    }
}

#[test]
fn leaves_action_mail_for_manual_todo_tagging() {
    let mail = mail(1, "A", "a@x.com", "请处理合同", "");
    assert_eq!(classify(&mail, &[]).0, "外部");
}

#[test]
fn classifies_internship_before_institutional_sender_signals() {
    let mail = mail(2, "Innovation Centre", "ic@bnbu.edu.cn", "Summer internship application deadline", "Submit your resume by Friday");
    assert_eq!(classify(&mail, &[]).0, "实习");
}

#[test]
fn classifies_cdc_career_planning_seminar_as_campus_affairs() {
    let mail = mail(3, "CDC", "career@bnbu.edu.cn", "【CDC宣讲会 | Career Session】职业发展规划讲座", "学生职业发展中心帮助同学建立职业规划思维。");
    assert_eq!(classify(&mail, &[]).0, "校园事务");
}

#[test]
fn classifies_innovation_center_competition_event_as_campus_affairs() {
    let mail = mail(4, "创新中心", "ic@bnbu.edu.cn", "2026釜涌杯暨国创赛BNBU校赛决赛项目打磨交流会报名通知", "创新中心将举办校赛决赛项目打磨交流会。");
    assert_eq!(classify(&mail, &[]).0, "校园事务");
}

#[test]
fn classifies_maker_center_incubation_notice_as_campus_affairs() {
    let mail = mail(5, "创客中心", "ic@bnbu.edu.cn", "BNBU创客中心入孵项目申报通知", "BNBU创客中心入孵项目申报已开启。");
    assert_eq!(classify(&mail, &[]).0, "校园事务");
}

#[test]
fn classifies_invited_dls_lecture_as_campus_affairs() {
    let mail = mail(6, "FST", "fst@bnbu.edu.cn", "Invitation to FST-DLS Lecture on 4 Sep", "诚挚邀请您参加FST-DLS系列讲座。");
    assert_eq!(classify(&mail, &[]).0, "校园事务");
}

#[test]
fn keeps_ordinary_course_lecture_in_academics() {
    let mail = mail(7, "Teacher", "teacher@bnbu.edu.cn", "Lecture 3 slides", "Materials for this week's course.");
    assert_eq!(classify(&mail, &[]).0, "学业");
}

#[test]
fn classifies_collection_of_cleared_personal_items_as_personal() {
    let mail = mail(8, "SLCDT", "slcdt@bnbu.edu.cn", "科雅苑公共区域清理物品领取通知", "请同学们到舍堂助理处登记后认领物品。");
    assert_eq!(classify(&mail, &[]).0, "个人");
}

#[test]
fn classifies_career_center_consultation_service_as_campus_affairs() {
    let mail = mail(9, "Career Centre", "career@uic.edu.cn", "一对一咨询项目定制升级啦", "本学期一对一咨询项目现已正式开放预约。");
    assert_eq!(classify(&mail, &[]).0, "校园事务");
}

#[test]
fn keeps_ordinary_appointment_as_personal() {
    let mail = mail(10, "Clinic", "clinic@example.com", "Appointment confirmation", "Your appointment is confirmed.");
    assert_eq!(classify(&mail, &[]).0, "个人");
}

#[test]
fn classifies_student_hostel_safety_inspection_as_personal() {
    let mail = mail(11, "SLCDT", "slcdt@bnbu.edu.cn", "关于开展9月学生宿舍安全检查的通知", "学生事务处将联合物业管理处开展学生宿舍安全专项检查。");
    assert_eq!(classify(&mail, &[]).0, "个人");
}

#[test]
fn keeps_ordinary_hostel_facility_notice_in_campus_affairs() {
    let mail = mail(12, "SLCDT", "slcdt@bnbu.edu.cn", "宿舍公共区域停水通知", "物业将检修供水设施。");
    assert_eq!(classify(&mail, &[]).0, "校园事务");
}

#[test]
fn classifies_university_datathon_notice_as_campus_affairs() {
    let mail = mail(13, "BNBU FST", "fst@bnbu.edu.cn", "Smart Logistics Datathon 2026_Please reply this email if you have signed up", "Please reply with your team composition and registration information.");
    assert_eq!(classify(&mail, &[]).0, "校园事务");
}

#[test]
fn classifies_guest_lecture_as_campus_affairs() {
    let mail = mail(14, "DFE", "dfe@bnbu.edu.cn", "DFE Guest Lecture | Seasonal Inventory Leverage", "Sept. 9, 14:00-15:00, T1-302-R1");
    assert_eq!(classify(&mail, &[]).0, "校园事务");
}

#[test]
fn keyword_reason_names_the_matched_word() {
    let m = mail(20, "Teacher", "teacher@bnbu.edu.cn", "Lecture 3 slides", "");
    let (category, reason) = classify(&m, &[]);
    assert_eq!(category, "学业");
    assert_eq!(reason, "关键词：lecture");
}

#[test]
fn unmatched_mail_is_external_with_its_reason() {
    let m = mail(21, "A", "a@x.com", "hello", "world");
    assert_eq!(classify(&m, &[]), ("外部".to_string(), "未匹配校内或个人规则".to_string()));
}

#[test]
fn campus_sender_is_recognised_ignoring_ascii_case() {
    let m = mail(22, "CDC", "CAREER@BNBU.EDU.CN", "hello", "");
    assert_eq!(classify(&m, &[]), ("校园事务".to_string(), "校内来源：CAREER@BNBU.EDU.CN".to_string()));
}

#[test]
fn a_matching_rule_wins_over_keywords() {
    let m = mail(23, "Teacher", "teacher@bnbu.edu.cn", "Lecture 3 slides", "");
    let rules = vec![rule("r1", "个人", "subject", "contains", "SLIDES", 1, true)];
    assert_eq!(classify(&m, &rules), ("个人".to_string(), "规则：subject contains SLIDES".to_string()));
}

#[test]
fn the_highest_priority_rule_decides_and_ties_go_to_the_first() {
    let m = mail(24, "X", "x@club.org", "Weekly news", "");
    let rules = vec![
        rule("low", "外部", "domain", "equals", "club.org", 1, true),
        rule("high", "社团活动", "domain", "equals", "CLUB.ORG", 5, true),
        rule("tie", "个人", "sender", "contains", "club", 5, true),
    ];
    assert_eq!(classify(&m, &rules).0, "社团活动");
    assert_eq!(deciding_rule(&m, &rules), Some(1));
}

#[test]
fn disabled_rules_are_skipped() {
    let m = mail(25, "X", "x@club.org", "Weekly news", "");
    let rules = vec![rule("off", "个人", "sender", "contains", "club", 9, false)];
    assert!(!rule_applies(&m, &rules[0]));
    assert_eq!(classify(&m, &rules).0, "外部");
}

#[test]
fn regex_rules_match_ignoring_case() {
    let m = mail(26, "X", "x@y.com", "Invoice #42", "");
    let rules = vec![rule("re", "个人", "subject", "regex", "^invoice #[0-9]+$", 1, true)];
    assert!(rule_applies(&m, &rules[0]));
    let bad = vec![rule("re", "个人", "subject", "regex", "(", 1, true)];
    assert!(!rule_applies(&m, &bad[0]));
}

#[test]
fn unknown_rule_fields_and_operators_never_match() {
    let m = mail(27, "X", "x@y.com", "Invoice", "");
    assert!(!rule_applies(&m, &rule("a", "个人", "cc", "contains", "x", 1, true)));
    assert!(!rule_applies(&m, &rule("b", "个人", "subject", "startswith", "Inv", 1, true)));
}

#[test]
fn domain_is_the_part_after_the_first_at() {
    let d: Vec<char> = domain_part(&"a@b.com@c".chars().collect::<Vec<char>>());
    assert_eq!(d.into_iter().collect::<String>(), "b.com");
    let none: Vec<char> = domain_part(&"plain".chars().collect::<Vec<char>>());
    assert!(none.is_empty());
}

#[test]
fn a_batch_is_classified_mail_by_mail() {
    let mails = vec![
        mail(1, "A", "a@x.com", "请处理合同", ""),
        mail(7, "Teacher", "teacher@bnbu.edu.cn", "Lecture 3 slides", ""),
    ];
    let out = classify_batch(&mails, &[]);
    assert_eq!(out.len(), 2);
    assert_eq!(out[0].0, "外部");
    assert_eq!(out[1].0, "学业");
}
