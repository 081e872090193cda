//! The records that the mail, calendar and reminder logic exchanges.
use vstd::prelude::*;

verus! {

/// Mailbox connection settings (the password is kept apart, in the system keychain).
#[derive(Debug, Clone)]
pub struct MailSettings {
    pub host: String,
    pub port: u16,
    pub email: String,
    pub sender_name: String,
    pub initial_days: u32,
    pub sync_minutes: u32,
}

/// The address and display name of the connected account.
#[derive(Debug, Clone)]
pub struct MailIdentity {
    pub email: String,
    pub display_name: String,
}

/// A stored, classified mail as listed to the user.
#[derive(Debug, Clone)]
pub struct MailMessage {
    pub id: String,
    pub uid: u32,
    pub folder: String,
    pub sender_name: String,
    pub sender_email: String,
    pub recipients: Vec<String>,
    pub subject: String,
    pub received_at: String,
    pub body_text: String,
    pub category: String,
    pub classification_reason: String,
    pub is_todo: bool,
    pub is_read: bool,
    pub reminder_status: String,
}

/// A reminder to be created from a mail or from another source.
#[derive(Debug, Clone)]
pub struct ReminderDraft {
    pub title: String,
    pub notes: String,
    pub due_at: Option<String>,
    pub priority: String,
    pub source_mail_id: String,
    pub source_url: Option<String>,
}

/// A user-defined classification rule.
#[derive(Debug, Clone)]
pub struct ClassificationRule {
    pub id: String,
    pub category: String,
    pub field: String,
    pub operator: String,
    pub value: String,
    pub priority: i32,
    pub enabled: bool,
}

/// A mail as read from the server, before classification.
#[derive(Debug, Clone)]
pub struct ParsedMail {
    pub uid: u32,
    pub sender_name: String,
    pub sender_email: String,
    pub recipients: Vec<String>,
    pub subject: String,
    pub received_at: String,
    pub body_text: String,
    pub is_read: bool,
}

/// A coursework deadline taken from the iSpace calendar feed.
#[derive(Debug, Clone)]
pub struct AssignmentDeadline {
    pub id: String,
    pub title: String,
    pub course: String,
    pub due_at: String,
    pub description: String,
    pub url: Option<String>,
    pub source: String,
}

/// An entry of the local calendar.
#[derive(Debug, Clone)]
pub struct CalendarEvent {
    pub id: String,
    pub title: String,
    pub notes: String,
    pub starts_at: Option<String>,
    pub priority: String,
    pub kind: String,
    pub source_id: Option<String>,
    pub source_url: Option<String>,
    pub read_only: bool,
}

/// A personal reminder as entered by the user.
#[derive(Debug, Clone)]
pub struct PersonalReminderInput {
    pub id: Option<String>,
    pub title: String,
    pub notes: String,
    pub starts_at: String,
    pub priority: String,
}

/// A request to put an item into the system reminders.
#[derive(Debug, Clone)]
pub struct SystemReminderInput {
    pub source_id: String,
    pub title: String,
    pub notes: String,
    pub due_at: String,
    pub priority: String,
}

/// A request to import a semester's academic calendar.
#[derive(Debug, Clone)]
pub struct AcademicCalendarImport {
    pub semester: String,
    pub source_url: String,
    pub entries: String,
}

/// A file attached to an outgoing mail, its content in Base64.
#[derive(Debug, Clone)]
pub struct OutgoingAttachment {
    pub name: String,
    pub mime_type: String,
    pub data_base64: String,
}

/// A mail to be sent.
#[derive(Debug, Clone)]
pub struct OutgoingMail {
    pub to: Vec<String>,
    pub cc: Vec<String>,
    pub bcc: Vec<String>,
    pub subject: String,
    pub text_body: String,
    pub html_body: String,
    pub attachments: Vec<OutgoingAttachment>,
}

/// A staff member found in the university directory.
#[derive(Debug, Clone)]
pub struct ProfessorContact {
    pub name: String,
    pub email: String,
    pub department: String,
    pub source_url: String,
}

} // verus!
