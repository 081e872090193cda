//! What the application checks of the values a user hands it before it stores
//! them or acts on them, and the keys under which it stores records.
use vstd::prelude::*;

use crate::classifier::{classification, classify};
use crate::models::{
    ClassificationRule, MailSettings, ParsedMail, PersonalReminderInput, ReminderDraft,
    SystemReminderInput,
};
use crate::text::{
    chars_equal_str, chars_of, decimal, is_blank, push_decimal, push_str, starts_with,
    starts_with_str, string_of, trim, trimmed,
};
use crate::times::{is_rfc3339, rfc3339_accepts};

verus! {

// ---------------------------------------------------------------------------
// Mail settings
// ---------------------------------------------------------------------------
/// Checks the mailbox settings and password a user saves. The host and the
/// address must not be blank and the port not zero, the password not empty;
/// the settings come back with the address and the host trimmed.
pub fn prepare_mail_settings(settings: MailSettings, password: &str) -> (r: Result<MailSettings, String>)
    ensures
        is_blank(settings.host@) || is_blank(settings.email@) || settings.port == 0 ==> (r matches Err(
            m,
        ) && m@ == "邮箱地址、服务器和端口不能为空"@),
        !(is_blank(settings.host@) || is_blank(settings.email@) || settings.port == 0)
            && password@.len() == 0 ==> (r matches Err(m) && m@ == "邮箱密码不能为空"@),
        !(is_blank(settings.host@) || is_blank(settings.email@) || settings.port == 0)
            && password@.len() > 0 ==> (r matches Ok(s) && s.email@ == trim(settings.email@)
            && s.host@ == trim(settings.host@) && s.port == settings.port && s.sender_name
            == settings.sender_name && s.initial_days == settings.initial_days && s.sync_minutes
            == settings.sync_minutes),
{
    let host = trimmed(settings.host.as_str());
    let email = trimmed(settings.email.as_str());
    if host.len() == 0 || email.len() == 0 || settings.port == 0 {
        return Err(String::from_str("邮箱地址、服务器和端口不能为空"));
    }
    if password.unicode_len() == 0 {
        return Err(String::from_str("邮箱密码不能为空"));
    }
    Ok(
        MailSettings {
            host: string_of(&host),
            port: settings.port,
            email: string_of(&email),
            sender_name: settings.sender_name,
            initial_days: settings.initial_days,
            sync_minutes: settings.sync_minutes,
        },
    )
}

// ---------------------------------------------------------------------------
// Categories and rules
// ---------------------------------------------------------------------------
/// The categories a mail can be put in.
pub open spec fn is_mail_category(c: Seq<char>) -> bool {
    c == "待办"@ || c == "学业"@ || c == "校园事务"@ || c == "社团活动"@ || c == "个人"@ || c
        == "外部"@
}

/// The mail fields a rule can look at.
pub open spec fn is_rule_field(f: Seq<char>) -> bool {
    f == "sender"@ || f == "domain"@ || f == "subject"@ || f == "body"@
}

/// The comparisons a rule can make.
pub open spec fn is_rule_operator(o: Seq<char>) -> bool {
    o == "contains"@ || o == "equals"@ || o == "regex"@
}

fn known_category(c: &[char]) -> (r: bool)
    ensures
        r == is_mail_category(c@),
{
    chars_equal_str(c, "待办") || chars_equal_str(c, "学业") || chars_equal_str(c, "校园事务")
        || chars_equal_str(c, "社团活动") || chars_equal_str(c, "个人") || chars_equal_str(
        c,
        "外部",
    )
}

/// Checks a category a user picks for a mail.
pub fn check_category(category: &str) -> (r: Result<(), String>)
    ensures
        r is Ok <==> is_mail_category(category@),
        r matches Err(m) ==> m@ == "未知分类"@,
{
    if known_category(&chars_of(category)) {
        Ok(())
    } else {
        Err(String::from_str("未知分类"))
    }
}

/// Whether a rule a user saves is complete: a known category, field and
/// comparison, and a value that is not blank.
pub open spec fn rule_is_valid(rule: ClassificationRule) -> bool {
    is_mail_category(rule.category@) && is_rule_field(rule.field@) && is_rule_operator(
        rule.operator@,
    ) && !is_blank(rule.value@)
}

/// Checks a classification rule a user saves.
pub fn check_rule(rule: &ClassificationRule) -> (r: Result<(), String>)
    ensures
        r is Ok <==> rule_is_valid(*rule),
        r matches Err(m) ==> m@ == "分类规则参数无效"@,
{
    let f = chars_of(rule.field.as_str());
    let o = chars_of(rule.operator.as_str());
    let field_ok = chars_equal_str(&f, "sender") || chars_equal_str(&f, "domain")
        || chars_equal_str(&f, "subject") || chars_equal_str(&f, "body");
    let operator_ok = chars_equal_str(&o, "contains") || chars_equal_str(&o, "equals")
        || chars_equal_str(&o, "regex");
    if !known_category(&chars_of(rule.category.as_str())) || !field_ok || !operator_ok
        || trimmed(rule.value.as_str()).len() == 0 {
        return Err(String::from_str("分类规则参数无效"));
    }
    Ok(())
}

/// Classifies each mail of a batch with the same rules, in order.
pub fn classify_batch(mails: &[ParsedMail], rules: &[ClassificationRule]) -> (r: Vec<(String, String)>)
    requires
        forall|i: int| 0 <= i < rules@.len() ==> rules@[i].priority > i32::MIN,
    ensures
        r@.len() == mails@.len(),
        forall|i: int|
            0 <= i < mails@.len() ==> (#[trigger] r@[i].0@, r@[i].1@) == classification(
                mails@[i],
                rules@,
            ),
{
    let mut out: Vec<(String, String)> = Vec::new();
    let mut i: usize = 0;
    while i < mails.len()
        invariant
            i <= mails@.len(),
            out@.len() == i,
            forall|k: int| 0 <= k < rules@.len() ==> rules@[k].priority > i32::MIN,
            forall|k: int|
                0 <= k < i ==> (#[trigger] out@[k].0@, out@[k].1@) == classification(
                    mails@[k],
                    rules@,
                ),
        decreases mails@.len() - i,
    {
        let decided = classify(&mails[i], rules);
        out.push(decided);
        i = i + 1;
    }
    out
}

// ---------------------------------------------------------------------------
// Reminders
// ---------------------------------------------------------------------------
/// The priorities a reminder can have.
pub open spec fn is_priority(p: Seq<char>) -> bool {
    p == "low"@ || p == "normal"@ || p == "high"@
}

fn known_priority(p: &str) -> (r: bool)
    ensures
        r == is_priority(p@),
{
    let c = chars_of(p);
    chars_equal_str(&c, "low") || chars_equal_str(&c, "normal") || chars_equal_str(&c, "high")
}

/// Checks a reminder drafted from a mail: its title must not be blank.
pub fn check_reminder_draft(draft: &ReminderDraft) -> (r: Result<(), String>)
    ensures
        r is Ok <==> !is_blank(draft.title@),
        r matches Err(m) ==> m@ == "提醒标题不能为空"@,
{
    if trimmed(draft.title.as_str()).len() == 0 {
        Err(String::from_str("提醒标题不能为空"))
    } else {
        Ok(())
    }
}

/// Refuses a second reminder for a mail, from whether one was already created.
pub fn check_mail_not_reminded(already_created: bool) -> (r: Result<(), String>)
    ensures
        r is Ok <==> !already_created,
        r matches Err(m) ==> m@ == "这封邮件已经创建过提醒"@,
{
    if already_created {
        Err(String::from_str("这封邮件已经创建过提醒"))
    } else {
        Ok(())
    }
}

/// Refuses a second system reminder for an item, from whether one was
/// already added.
pub fn check_item_not_reminded(already_added: bool) -> (r: Result<(), String>)
    ensures
        r is Ok <==> !already_added,
        r matches Err(m) ==> m@ == "这个事项已经加入过电脑提醒"@,
{
    if already_added {
        Err(String::from_str("这个事项已经加入过电脑提醒"))
    } else {
        Ok(())
    }
}

/// Checks the due date of a reminder: an absent date passes, a present one
/// must be an RFC 3339 date and time and comes back as it was.
pub fn validate_due_date(value: Option<&str>) -> (r: Result<Option<&str>, String>)
    ensures
        value is None ==> r == Ok::<Option<&str>, String>(None),
        value matches Some(v) ==> (rfc3339_accepts(v@) ==> r == Ok::<Option<&str>, String>(
            Some(v),
        )),
        value matches Some(v) ==> (!rfc3339_accepts(v@) ==> (r matches Err(m) && m@
            == "提醒时间格式无效"@)),
{
    match value {
        None => Ok(None),
        Some(v) => {
            if is_rfc3339(v) {
                Ok(Some(v))
            } else {
                Err(String::from_str("提醒时间格式无效"))
            }
        },
    }
}

/// The error, if any, for a reminder that goes to the system's reminders:
/// its source and title must not be blank, its priority must be known and
/// its due date RFC 3339, checked in that order.
pub open spec fn system_reminder_error(input: SystemReminderInput) -> Option<Seq<char>> {
    if is_blank(input.source_id@) {
        Some("提醒来源不能为空"@)
    } else if is_blank(input.title@) {
        Some("提醒标题不能为空"@)
    } else if !is_priority(input.priority@) {
        Some("提醒优先级无效"@)
    } else if !rfc3339_accepts(input.due_at@) {
        Some("提醒时间格式无效"@)
    } else {
        None
    }
}

/// Checks a reminder for the system's reminders and drafts it: title, notes,
/// priority and due date as given, the source as the draft's source.
pub fn system_reminder_draft(input: SystemReminderInput) -> (r: Result<ReminderDraft, String>)
    ensures
        system_reminder_error(input) matches Some(e) ==> (r matches Err(m) && m@ == e),
        system_reminder_error(input) is None ==> (r matches Ok(d) && d.title == input.title
            && d.notes == input.notes && d.due_at == Some(input.due_at) && d.priority
            == input.priority && d.source_mail_id == input.source_id && d.source_url is None),
{
    if trimmed(input.source_id.as_str()).len() == 0 {
        return Err(String::from_str("提醒来源不能为空"));
    }
    if trimmed(input.title.as_str()).len() == 0 {
        return Err(String::from_str("提醒标题不能为空"));
    }
    if !known_priority(input.priority.as_str()) {
        return Err(String::from_str("提醒优先级无效"));
    }
    if !is_rfc3339(input.due_at.as_str()) {
        return Err(String::from_str("提醒时间格式无效"));
    }
    Ok(
        ReminderDraft {
            title: input.title,
            notes: input.notes,
            due_at: Some(input.due_at),
            priority: input.priority,
            source_mail_id: input.source_id,
            source_url: None,
        },
    )
}

/// The error, if any, for a personal reminder a user saves: a title that is
/// not blank, a known priority, an RFC 3339 start, and, when it edits an
/// existing reminder, an id of a personal one.
pub open spec fn personal_reminder_error(input: PersonalReminderInput) -> Option<Seq<char>> {
    if is_blank(input.title@) {
        Some("提醒标题不能为空"@)
    } else if !is_priority(input.priority@) {
        Some("提醒优先级无效"@)
    } else if !rfc3339_accepts(input.starts_at@) {
        Some("提醒时间格式无效"@)
    } else if input.id matches Some(id) && !starts_with(id@, "personal:"@) {
        Some("只能编辑个人提醒"@)
    } else {
        None
    }
}

/// Checks a personal reminder a user saves.
pub fn check_personal_reminder(input: &PersonalReminderInput) -> (r: Result<(), String>)
    ensures
        personal_reminder_error(*input) matches Some(e) ==> (r matches Err(m) && m@ == e),
        personal_reminder_error(*input) is None ==> r is Ok,
{
    if trimmed(input.title.as_str()).len() == 0 {
        return Err(String::from_str("提醒标题不能为空"));
    }
    if !known_priority(input.priority.as_str()) {
        return Err(String::from_str("提醒优先级无效"));
    }
    if !is_rfc3339(input.starts_at.as_str()) {
        return Err(String::from_str("提醒时间格式无效"));
    }
    match &input.id {
        Some(id) => {
            if !starts_with_str(&chars_of(id.as_str()), "personal:") {
                return Err(String::from_str("只能编辑个人提醒"));
            }
        },
        None => {},
    }
    Ok(())
}

// ---------------------------------------------------------------------------
// Record keys
// ---------------------------------------------------------------------------
/// The key of a mail of the inbox: `INBOX:` and its UID.
pub open spec fn mail_key(uid: u32) -> Seq<char> {
    "INBOX:"@ + decimal(uid as nat)
}

/// The key under which a mail of the inbox is stored.
pub fn mail_record_id(uid: u32) -> (r: String)
    ensures
        r@ == mail_key(uid),
{
    let mut out: Vec<char> = chars_of("INBOX:");
    push_decimal(&mut out, uid as u64);
    string_of(&out)
}

/// The key of the calendar event of a reminder made from a mail.
pub fn mail_event_id(source_mail_id: &str) -> (r: String)
    ensures
        r@ == "mail:"@ + source_mail_id@,
{
    let mut out: Vec<char> = chars_of("mail:");
    push_str(&mut out, source_mail_id);
    string_of(&out)
}

/// The key of an entry of the academic calendar: the semester, the entry's
/// start and its place in the imported list.
pub fn academic_event_id(semester: &str, starts_at: &str, index: usize) -> (r: String)
    ensures
        r@ == "academic:"@ + semester@ + ":"@ + starts_at@ + ":"@ + decimal(index as nat),
{
    let mut out: Vec<char> = chars_of("academic:");
    push_str(&mut out, semester);
    push_str(&mut out, ":");
    push_str(&mut out, starts_at);
    push_str(&mut out, ":");
    push_decimal(&mut out, index as u64);
    string_of(&out)
}

/// The key of a personal reminder: the one it already has, else `personal:`
/// and a fresh identifier.
pub fn personal_event_id(existing: Option<String>, fresh: &str) -> (r: String)
    ensures
        existing matches Some(id) ==> r == id,
        existing is None ==> r@ == "personal:"@ + fresh@,
{
    match existing {
        Some(id) => id,
        None => {
            let mut out: Vec<char> = chars_of("personal:");
            push_str(&mut out, fresh);
            string_of(&out)
        },
    }
}

/// The outcome of deleting a personal reminder, from the number of rows the
/// deletion removed: none means the id was not that of a personal reminder.
pub fn personal_deletion_result(removed: usize) -> (r: Result<(), String>)
    ensures
        r is Ok <==> removed > 0,
        r matches Err(m) ==> m@ == "只能删除个人提醒"@,
{
    if removed == 0 {
        Err(String::from_str("只能删除个人提醒"))
    } else {
        Ok(())
    }
}

} // verus!
