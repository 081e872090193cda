//! Secrets (the mailbox password, the calendar feed URL) kept in the system
//! credential store through `keyring`: the macOS keychain or the Windows
//! credential manager, each with its own messages.
use vstd::prelude::*;

use crate::text::{chars_equal_str, chars_of, push_str, string_of};

verus! {

#[verifier::external_type_specification]
#[verifier::external_body]
pub struct ExCredentialEntry(keyring::Entry);

#[verifier::external_type_specification]
#[verifier::external_body]
pub struct ExCredentialError(keyring::Error);

/// `keyring::Entry::new(service, account)`. Whether the platform's store
/// hands out an entry depends on the machine; nothing is stated of it.
#[verifier::external_body]
fn open_entry(service: &str, account: &str) -> (r: Result<keyring::Entry, keyring::Error>) {
    keyring::Entry::new(service, account)
}

/// `keyring::Entry::set_password`. The store's answer depends on the machine;
/// nothing is stated of it.
#[verifier::external_body]
fn store_password(entry: &keyring::Entry, secret: &str) -> (r: Result<(), keyring::Error>) {
    entry.set_password(secret)
}

/// `keyring::Entry::get_password`. What the store holds is outside the
/// library; nothing is stated of the text it gives back.
#[verifier::external_body]
fn read_password(entry: &keyring::Entry) -> (r: Result<String, keyring::Error>) {
    entry.get_password()
}

/// `keyring::Entry::delete_credential`. The store's answer depends on the
/// machine; nothing is stated of it.
#[verifier::external_body]
fn remove_credential(entry: &keyring::Entry) -> (r: Result<(), keyring::Error>) {
    entry.delete_credential()
}

/// The text of a `keyring::Error` as its `Display` writes it; some variants
/// carry a platform error whose text is not known here, so nothing is stated.
#[verifier::external_body]
fn error_text(error: &keyring::Error) -> (r: String) {
    error.to_string()
}

/// Whether a `keyring::Error` is its `BadEncoding` variant: the stored secret
/// is not UTF-8. The error is opaque here, so nothing is stated.
#[verifier::external_body]
fn is_bad_encoding(error: &keyring::Error) -> (r: bool) {
    match error {
        keyring::Error::BadEncoding(_) => true,
        _ => false,
    }
}

/// The credential store of the platform, which decides the messages a user
/// sees.
#[derive(Debug, Clone, Copy, PartialEq, Eq, Structural)]
pub enum CredentialPlatform {
    MacKeychain,
    WindowsCredentials,
}

/// A failure of the store: its text, and whether the stored secret was not
/// UTF-8.
#[derive(Debug, Clone)]
pub struct StoreFailure {
    pub text: String,
    pub bad_encoding: bool,
}

/// A read from the store, by the views of its text.
pub open spec fn read_view(r: Result<String, StoreFailure>) -> Result<Seq<char>, (Seq<char>, bool)> {
    match r {
        Ok(s) => Ok(s@),
        Err(f) => Err((f.text@, f.bad_encoding)),
    }
}

/// A `Result` of texts, by the texts' views.
pub open spec fn text_result(r: Result<String, String>) -> Result<Seq<char>, Seq<char>> {
    match r {
        Ok(s) => Ok(s@),
        Err(e) => Err(e@),
    }
}

/// The message when the store refuses to write a secret.
pub open spec fn write_failure_message(platform: CredentialPlatform, detail: Seq<char>) -> Seq<char> {
    match platform {
        CredentialPlatform::MacKeychain => "无法写入 macOS 钥匙串："@ + detail,
        CredentialPlatform::WindowsCredentials => "无法写入 Windows 凭据管理器："@ + detail,
    }
}

/// The message when a secret that was written cannot be read back.
pub open spec fn read_back_failure_message(platform: CredentialPlatform, detail: Seq<char>) -> Seq<
    char,
> {
    match platform {
        CredentialPlatform::MacKeychain => "钥匙串写入后无法读取："@ + detail,
        CredentialPlatform::WindowsCredentials => "凭据写入后无法读取："@ + detail,
    }
}

/// The message when the secret read back differs from the one written.
pub open spec fn mismatch_message(platform: CredentialPlatform) -> Seq<char> {
    match platform {
        CredentialPlatform::MacKeychain => "钥匙串写入验证失败，请检查系统钥匙串权限"@,
        CredentialPlatform::WindowsCredentials => "凭据写入验证失败，请检查系统凭据权限"@,
    }
}

/// The outcome of saving a secret that was written, from what reading it
/// back gave. On the keychain a stored value that is not UTF-8 differs from
/// the secret written, so it is a mismatch; any other failure of the read is
/// reported with its text.
pub open spec fn read_back_outcome(
    platform: CredentialPlatform,
    stored: Result<Seq<char>, (Seq<char>, bool)>,
    secret: Seq<char>,
) -> Result<(), Seq<char>> {
    match stored {
        Err((e, bad_encoding)) => if platform == CredentialPlatform::MacKeychain && bad_encoding {
            Err(mismatch_message(platform))
        } else {
            Err(read_back_failure_message(platform, e))
        },
        Ok(s) => if s == secret {
            Ok(())
        } else {
            Err(mismatch_message(platform))
        },
    }
}

/// A secret counts as saved only when reading it back gives that same secret.
pub proof fn lemma_saved_only_when_read_back(
    platform: CredentialPlatform,
    stored: Result<Seq<char>, (Seq<char>, bool)>,
    secret: Seq<char>,
)
    ensures
        read_back_outcome(platform, stored, secret) is Ok <==> stored == Ok::<
            Seq<char>,
            (Seq<char>, bool),
        >(secret),
{
}

/// The message when the store refuses to write a secret.
fn write_failure(platform: CredentialPlatform, detail: &str) -> (r: String)
    ensures
        r@ == write_failure_message(platform, detail@),
{
    let mut msg: Vec<char> = match platform {
        CredentialPlatform::MacKeychain => chars_of("无法写入 macOS 钥匙串："),
        CredentialPlatform::WindowsCredentials => chars_of("无法写入 Windows 凭据管理器："),
    };
    push_str(&mut msg, detail);
    string_of(&msg)
}

/// The mismatch message of a platform.
fn mismatch(platform: CredentialPlatform) -> (r: String)
    ensures
        r@ == mismatch_message(platform),
{
    match platform {
        CredentialPlatform::MacKeychain => String::from_str("钥匙串写入验证失败，请检查系统钥匙串权限"),
        CredentialPlatform::WindowsCredentials => String::from_str(
            "凭据写入验证失败，请检查系统凭据权限",
        ),
    }
}

/// Decides a save from what reading the secret back gave.
pub fn check_read_back(platform: CredentialPlatform, stored: Result<String, StoreFailure>, secret: &str) -> (r: Result<
    (),
    String,
>)
    ensures
        match read_back_outcome(platform, read_view(stored), secret@) {
            Ok(()) => r is Ok,
            Err(e) => r matches Err(m) && m@ == e,
        },
{
    match stored {
        Err(f) => {
            let mac = match platform {
                CredentialPlatform::MacKeychain => true,
                CredentialPlatform::WindowsCredentials => false,
            };
            if mac && f.bad_encoding {
                return Err(mismatch(platform));
            }
            let mut msg: Vec<char> = match platform {
                CredentialPlatform::MacKeychain => chars_of("钥匙串写入后无法读取："),
                CredentialPlatform::WindowsCredentials => chars_of("凭据写入后无法读取："),
            };
            push_str(&mut msg, f.text.as_str());
            Err(string_of(&msg))
        },
        Ok(s) => {
            if chars_equal_str(&chars_of(s.as_str()), secret) {
                Ok(())
            } else {
                Err(mismatch(platform))
            }
        },
    }
}

/// The outcome of loading a secret from what the store gave: the secret, or
/// a request to save the settings again. The keychain's message tells a
/// stored value that is not UTF-8 apart from a missing one; the credential
/// manager's quotes the store's error.
pub open spec fn load_outcome(platform: CredentialPlatform, read: Result<Seq<char>, (Seq<char>, bool)>) -> Result<
    Seq<char>,
    Seq<char>,
> {
    match read {
        Ok(s) => Ok(s),
        Err((e, bad_encoding)) => match platform {
            CredentialPlatform::MacKeychain => if bad_encoding {
                Err("钥匙串中的凭据格式无效，请重新保存设置"@)
            } else {
                Err("系统钥匙串中没有所需凭据，请重新保存设置"@)
            },
            CredentialPlatform::WindowsCredentials => Err(
                "系统凭据中没有可用的邮箱密码（"@ + e + "），请重新保存设置"@,
            ),
        },
    }
}

/// Decides a load from what the store gave.
pub fn check_loaded(platform: CredentialPlatform, read: Result<String, StoreFailure>) -> (r: Result<
    String,
    String,
>)
    ensures
        text_result(r) == load_outcome(platform, read_view(read)),
{
    match read {
        Ok(s) => Ok(s),
        Err(f) => match platform {
            CredentialPlatform::MacKeychain => {
                if f.bad_encoding {
                    Err(String::from_str("钥匙串中的凭据格式无效，请重新保存设置"))
                } else {
                    Err(String::from_str("系统钥匙串中没有所需凭据，请重新保存设置"))
                }
            },
            CredentialPlatform::WindowsCredentials => {
                let mut msg: Vec<char> = chars_of("系统凭据中没有可用的邮箱密码（");
                push_str(&mut msg, f.text.as_str());
                push_str(&mut msg, "），请重新保存设置");
                Err(string_of(&msg))
            },
        },
    }
}

/// What a failed call of the store is, for the checks above.
fn failure_of(error: &keyring::Error) -> (r: StoreFailure) {
    StoreFailure { text: error_text(error), bad_encoding: is_bad_encoding(error) }
}

/// Writes a secret under a service and an account to the platform's store,
/// reads it back and hands what came back to `check_read_back`. The calls
/// into the store carry no contract, so this function's contract states
/// nothing: what the store does and returns depends on the machine; the
/// decision after the read is the one `check_read_back` states.
pub fn save_secret(platform: CredentialPlatform, service: &str, account: &str, secret: &str) -> (r: Result<
    (),
    String,
>) {
    let entry = match open_entry(service, account) {
        Ok(entry) => entry,
        Err(e) => return Err(error_text(&e)),
    };
    match store_password(&entry, secret) {
        Ok(()) => {},
        Err(e) => {
            return Err(write_failure(platform, error_text(&e).as_str()));
        },
    }
    let stored = match read_password(&entry) {
        Ok(s) => Ok(s),
        Err(e) => Err(failure_of(&e)),
    };
    check_read_back(platform, stored, secret)
}

/// Reads the secret saved under a service and an account from the
/// platform's store and hands what came back to `check_loaded`. The contract
/// states nothing: what the store returns depends on the machine; the
/// decision after the read is the one `check_loaded` states.
pub fn load_secret(platform: CredentialPlatform, service: &str, account: &str) -> (r: Result<
    String,
    String,
>) {
    let entry = match open_entry(service, account) {
        Ok(entry) => entry,
        Err(e) => return Err(error_text(&e)),
    };
    let read = match read_password(&entry) {
        Ok(s) => Ok(s),
        Err(e) => Err(failure_of(&e)),
    };
    check_loaded(platform, read)
}

/// Asks the platform's store to delete the secret saved under a service and
/// an account, passing on the store's error text when it refuses. The
/// contract states nothing: the outcome is the store's.
pub fn delete_secret(service: &str, account: &str) -> (r: Result<(), String>) {
    let entry = match open_entry(service, account) {
        Ok(entry) => entry,
        Err(e) => return Err(error_text(&e)),
    };
    match remove_credential(&entry) {
        Ok(()) => Ok(()),
        Err(e) => Err(error_text(&e)),
    }
}

} // verus!
