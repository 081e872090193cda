use mail_focus::commands::{
    academic_event_id, check_category, check_item_not_reminded, check_mail_not_reminded,
    check_personal_reminder, check_reminder_draft, check_rule,
    mail_event_id, mail_record_id, personal_deletion_result, personal_event_id,
    prepare_mail_settings, system_reminder_draft, validate_due_date,
};
use mail_focus::models::{
    ClassificationRule, MailSettings, PersonalReminderInput, ReminderDraft, SystemReminderInput,
};
use mail_focus::secrets::{
    check_loaded, check_read_back, delete_secret, load_secret, save_secret, CredentialPlatform,
    StoreFailure,
};

fn settings(host: &str, port: u16, email: &str) -> MailSettings {
    MailSettings {
        host: host.into(),
        port,
        email: email.into(),
        sender_name: "Ann".into(),
        initial_days: 7,
        sync_minutes: 5,
    }
}

fn system_input(source_id: &str, title: &str, due_at: &str, priority: &str) -> SystemReminderInput {
    SystemReminderInput {
        source_id: source_id.into(),
        title: title.into(),
        notes: "n".into(),
        due_at: due_at.into(),
        priority: priority.into(),
    }
}

fn personal(id: Option<&str>, title: &str, starts_at: &str, priority: &str) -> PersonalReminderInput {
    PersonalReminderInput {
        id: id.map(|s| s.to_string()),
        title: title.into(),
        notes: "".into(),
        starts_at: starts_at.into(),
        priority: priority.into(),
    }
}

#[test]
fn accepts_iso_due_date_without_locale_parsing() {
    assert_eq!(validate_due_date(Some("2026-08-30T04:10:00+08:00")).expect("parse due date"), Some("2026-08-30T04:10:00+08:00"));
}

#[test]
fn rejects_invalid_due_date_before_creating_reminder() {
    assert!(validate_due_date(Some("08/30/2026 04:10:00")).is_err());
}

#[test]
fn an_absent_due_date_passes() {
    assert_eq!(validate_due_date(None), Ok(None));
    assert_eq!(validate_due_date(Some("x")).unwrap_err(), "提醒时间格式无效");
}

#[test]
fn mail_settings_are_checked_and_trimmed() {
    let s = prepare_mail_settings(settings(" imap.x.com ", 993, " me@x.com "), "pw").unwrap();
    assert_eq!(s.host, "imap.x.com");
    assert_eq!(s.email, "me@x.com");
    assert_eq!(s.port, 993);
    assert_eq!(s.sender_name, "Ann");
    assert_eq!(prepare_mail_settings(settings(" ", 993, "me@x.com"), "pw").unwrap_err(), "邮箱地址、服务器和端口不能为空");
    assert_eq!(prepare_mail_settings(settings("h", 0, "me@x.com"), "pw").unwrap_err(), "邮箱地址、服务器和端口不能为空");
    assert_eq!(prepare_mail_settings(settings("h", 993, "me@x.com"), "").unwrap_err(), "邮箱密码不能为空");
}

#[test]
fn categories_must_be_known() {
    for c in ["待办", "学业", "校园事务", "社团活动", "个人", "外部"] {
        assert!(check_category(c).is_ok());
    }
    assert_eq!(check_category("实习").unwrap_err(), "未知分类");
}

#[test]
fn rules_must_be_complete() {
    let good = ClassificationRule {
        id: "r".into(),
        category: "学业".into(),
        field: "subject".into(),
        operator: "regex".into(),
        value: "exam".into(),
        priority: 1,
        enabled: true,
    };
    assert!(check_rule(&good).is_ok());
    let mut bad = good.clone();
    bad.value = "  ".into();
    assert_eq!(check_rule(&bad).unwrap_err(), "分类规则参数无效");
    let mut bad_field = good.clone();
    bad_field.field = "cc".into();
    assert!(check_rule(&bad_field).is_err());
    let mut bad_operator = good.clone();
    bad_operator.operator = "starts".into();
    assert!(check_rule(&bad_operator).is_err());
}

#[test]
fn reminder_drafts_need_a_title() {
    let draft = ReminderDraft {
        title: " ".into(),
        notes: "".into(),
        due_at: None,
        priority: "normal".into(),
        source_mail_id: "INBOX:1".into(),
        source_url: None,
    };
    assert_eq!(check_reminder_draft(&draft).unwrap_err(), "提醒标题不能为空");
}

#[test]
fn system_reminders_are_checked_in_order() {
    let d = system_input("assign:1", "Essay", "2026-09-05T18:00:00+08:00", "high");
    let draft = system_reminder_draft(d).unwrap();
    assert_eq!(draft.title, "Essay");
    assert_eq!(draft.due_at, Some("2026-09-05T18:00:00+08:00".to_string()));
    assert_eq!(draft.source_mail_id, "assign:1");
    assert_eq!(draft.source_url, None);
    assert_eq!(system_reminder_draft(system_input(" ", "", "x", "x")).unwrap_err(), "提醒来源不能为空");
    assert_eq!(system_reminder_draft(system_input("s", " ", "x", "x")).unwrap_err(), "提醒标题不能为空");
    assert_eq!(system_reminder_draft(system_input("s", "t", "x", "urgent")).unwrap_err(), "提醒优先级无效");
    assert_eq!(system_reminder_draft(system_input("s", "t", "x", "low")).unwrap_err(), "提醒时间格式无效");
}

#[test]
fn personal_reminders_are_checked() {
    let ok = personal(Some("personal:abc"), "复习", "2026-09-02T10:00:00+08:00", "normal");
    assert!(check_personal_reminder(&ok).is_ok());
    assert!(check_personal_reminder(&personal(None, "复习", "2026-09-02T10:00:00+08:00", "low")).is_ok());
    assert_eq!(check_personal_reminder(&personal(Some("mail:INBOX:1"), "复习", "2026-09-02T10:00:00+08:00", "low")).unwrap_err(), "只能编辑个人提醒");
    assert_eq!(check_personal_reminder(&personal(None, "", "2026-09-02T10:00:00+08:00", "low")).unwrap_err(), "提醒标题不能为空");
    assert_eq!(check_personal_reminder(&personal(None, "t", "2026-09-02T10:00:00+08:00", "mid")).unwrap_err(), "提醒优先级无效");
    assert_eq!(check_personal_reminder(&personal(None, "t", "tomorrow", "low")).unwrap_err(), "提醒时间格式无效");
}

#[test]
fn record_keys() {
    assert_eq!(mail_record_id(42), "INBOX:42");
    assert_eq!(mail_event_id("INBOX:42"), "mail:INBOX:42");
    assert_eq!(academic_event_id("2026-27 第一学期", "2026-09-01T09:00:00+08:00", 3), "academic:2026-27 第一学期:2026-09-01T09:00:00+08:00:3");
    assert_eq!(personal_event_id(Some("personal:x".into()), "y"), "personal:x");
    assert_eq!(personal_event_id(None, "y"), "personal:y");
    assert_eq!(personal_deletion_result(0).unwrap_err(), "只能删除个人提醒");
    assert!(personal_deletion_result(1).is_ok());
}

#[test]
fn a_saved_secret_must_read_back_the_same() {
    let win = CredentialPlatform::WindowsCredentials;
    let mac = CredentialPlatform::MacKeychain;
    let failure = |text: &str, bad_encoding: bool| StoreFailure { text: text.into(), bad_encoding };
    assert!(check_read_back(win, Ok("pw".into()), "pw").is_ok());
    assert_eq!(check_read_back(win, Ok("other".into()), "pw").unwrap_err(), "凭据写入验证失败，请检查系统凭据权限");
    assert_eq!(check_read_back(mac, Ok("other".into()), "pw").unwrap_err(), "钥匙串写入验证失败，请检查系统钥匙串权限");
    assert_eq!(check_read_back(win, Err(failure("gone", false)), "pw").unwrap_err(), "凭据写入后无法读取：gone");
    assert_eq!(check_read_back(mac, Err(failure("gone", false)), "pw").unwrap_err(), "钥匙串写入后无法读取：gone");
    assert_eq!(check_read_back(mac, Err(failure("bytes", true)), "pw").unwrap_err(), "钥匙串写入验证失败，请检查系统钥匙串权限");
    assert_eq!(check_read_back(win, Err(failure("bytes", true)), "pw").unwrap_err(), "凭据写入后无法读取：bytes");
}

#[test]
fn a_failed_load_asks_to_save_the_settings_again() {
    let win = CredentialPlatform::WindowsCredentials;
    let mac = CredentialPlatform::MacKeychain;
    let failure = |text: &str, bad_encoding: bool| StoreFailure { text: text.into(), bad_encoding };
    assert_eq!(check_loaded(win, Ok("pw".into())).unwrap(), "pw");
    assert_eq!(check_loaded(mac, Ok("pw".into())).unwrap(), "pw");
    assert_eq!(check_loaded(win, Err(failure("No entry", false))).unwrap_err(), "系统凭据中没有可用的邮箱密码（No entry），请重新保存设置");
    assert_eq!(check_loaded(mac, Err(failure("No entry", false))).unwrap_err(), "系统钥匙串中没有所需凭据，请重新保存设置");
    assert_eq!(check_loaded(mac, Err(failure("bytes", true))).unwrap_err(), "钥匙串中的凭据格式无效，请重新保存设置");
}

#[test]
fn secrets_round_trip_through_the_credential_store_entry() {
    let platform = CredentialPlatform::WindowsCredentials;
    assert!(save_secret(platform, "mail-focus-test", "someone", "pw").is_ok());
    // keyring without a native store keeps secrets per entry, so a new entry holds none yet.
    let loaded = load_secret(platform, "mail-focus-test", "someone");
    if let Err(message) = loaded {
        assert!(message.starts_with("系统凭据中没有可用的邮箱密码（"));
        assert!(message.ends_with("），请重新保存设置"));
    }
    let _ = delete_secret("mail-focus-test", "someone");
}

#[test]
fn a_second_reminder_is_refused() {
    assert!(check_mail_not_reminded(false).is_ok());
    assert_eq!(check_mail_not_reminded(true).unwrap_err(), "这封邮件已经创建过提醒");
    assert!(check_item_not_reminded(false).is_ok());
    assert_eq!(check_item_not_reminded(true).unwrap_err(), "这个事项已经加入过电脑提醒");
}
