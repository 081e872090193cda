//! Classification of incoming mail into categories, by user rules first and
//! by built-in keyword lists after.
use vstd::prelude::*;

use crate::models::{ClassificationRule, ParsedMail};
use crate::text::{
    chars_eq_ignore_ascii_case, chars_equal_str, chars_of, contains, contains_chars,
    eq_ignore_ascii_case, find_char, first_index_of, lemma_first_index_of, lowercase_chars,
    push_str, slice_chars, string_of, unicode_lowercase,
};

verus! {

// ---------------------------------------------------------------------------
// Built-in keyword lists
// ---------------------------------------------------------------------------
/// Words that mark an internship or recruitment mail.
pub open spec fn internship_words() -> Seq<Seq<char>> {
    seq![
        "实习"@,
        "实习生"@,
        "校招"@,
        "招聘"@,
        "简历"@,
        "internship"@,
        "intern position"@,
        "recruitment"@,
        "student assistant"@,
        "career opportunity"@,
        "job opening"@,
        "resume"@,
    ]
}

/// Words that mark coursework and study.
pub open spec fn academic_words() -> Seq<Seq<char>> {
    seq![
        "课程"@,
        "作业"@,
        "考试"@,
        "成绩"@,
        "课堂"@,
        "选课"@,
        "论文"@,
        "导师"@,
        "assignment"@,
        "course"@,
        "exam"@,
        "quiz"@,
        "lecture"@,
    ]
}

/// Words that mark campus administration.
pub open spec fn campus_affairs_words() -> Seq<Seq<char>> {
    seq![
        "教务"@,
        "校园"@,
        "宿舍"@,
        "图书馆"@,
        "注册"@,
        "缴费"@,
        "学生事务"@,
        "itsc"@,
        "校园卡"@,
        "系统通知"@,
        "学生职业发展中心"@,
        "职业发展规划"@,
        "cdc宣讲会"@,
        "career development center"@,
        "career development centre"@,
        "一对一咨询项目"@,
        "创新中心"@,
        "创客中心"@,
        "入孵项目"@,
        "校赛"@,
        "项目打磨交流会"@,
    ]
}

/// Words that mark club and extracurricular activities.
pub open spec fn club_activity_words() -> Seq<Seq<char>> {
    seq![
        "社团"@,
        "活动"@,
        "招募"@,
        "志愿者"@,
        "比赛"@,
        "报名"@,
        "讲座"@,
        "工作坊"@,
        "club"@,
        "event"@,
        "workshop"@,
    ]
}

/// Words that mark personal matters.
pub open spec fn personal_words() -> Seq<Seq<char>> {
    seq!["个人"@, "预约"@, "账单"@, "快递"@, "账户"@, "生日"@, "appointment"@, "personal"@]
}

/// Phrases of campus events that would otherwise read as lectures or contests.
pub open spec fn campus_event_phrases() -> Seq<Seq<char>> {
    seq!["系列讲座"@, "dls lecture"@, "guest lecture"@, "datathon"@]
}

/// Phrases of notices that concern the student personally.
pub open spec fn personal_item_phrases() -> Seq<Seq<char>> {
    seq![
        "物品领取"@,
        "物品认领"@,
        "认领物品"@,
        "宿舍安全检查"@,
        "宿舍安全专项检查"@,
        "student hostel safety inspection"@,
    ]
}

/// Institutional senders whose mail is campus business.
pub open spec fn campus_senders() -> Seq<Seq<char>> {
    seq!["career@uic.edu.cn"@, "career@bnbu.edu.cn"@, "ic@bnbu.edu.cn"@]
}

/// The views of a list of string literals.
pub open spec fn views(words: Seq<&'static str>) -> Seq<Seq<char>> {
    words.map_values(|w: &str| w@)
}

fn internship_list() -> (r: Vec<&'static str>)
    ensures
        views(r@) == internship_words(),
{
    let r = vec![
        "实习",
        "实习生",
        "校招",
        "招聘",
        "简历",
        "internship",
        "intern position",
        "recruitment",
        "student assistant",
        "career opportunity",
        "job opening",
        "resume",
    ];
    assert(views(r@) =~= internship_words());
    r
}

fn academic_list() -> (r: Vec<&'static str>)
    ensures
        views(r@) == academic_words(),
{
    let r = vec![
        "课程",
        "作业",
        "考试",
        "成绩",
        "课堂",
        "选课",
        "论文",
        "导师",
        "assignment",
        "course",
        "exam",
        "quiz",
        "lecture",
    ];
    assert(views(r@) =~= academic_words());
    r
}

fn campus_affairs_list() -> (r: Vec<&'static str>)
    ensures
        views(r@) == campus_affairs_words(),
{
    let r = vec![
        "教务",
        "校园",
        "宿舍",
        "图书馆",
        "注册",
        "缴费",
        "学生事务",
        "itsc",
        "校园卡",
        "系统通知",
        "学生职业发展中心",
        "职业发展规划",
        "cdc宣讲会",
        "career development center",
        "career development centre",
        "一对一咨询项目",
        "创新中心",
        "创客中心",
        "入孵项目",
        "校赛",
        "项目打磨交流会",
    ];
    assert(views(r@) =~= campus_affairs_words());
    r
}

fn club_activity_list() -> (r: Vec<&'static str>)
    ensures
        views(r@) == club_activity_words(),
{
    let r = vec![
        "社团",
        "活动",
        "招募",
        "志愿者",
        "比赛",
        "报名",
        "讲座",
        "工作坊",
        "club",
        "event",
        "workshop",
    ];
    assert(views(r@) =~= club_activity_words());
    r
}

fn personal_list() -> (r: Vec<&'static str>)
    ensures
        views(r@) == personal_words(),
{
    let r = vec!["个人", "预约", "账单", "快递", "账户", "生日", "appointment", "personal"];
    assert(views(r@) =~= personal_words());
    r
}

fn campus_event_list() -> (r: Vec<&'static str>)
    ensures
        views(r@) == campus_event_phrases(),
{
    let r = vec!["系列讲座", "dls lecture", "guest lecture", "datathon"];
    assert(views(r@) =~= campus_event_phrases());
    r
}

fn personal_item_list() -> (r: Vec<&'static str>)
    ensures
        views(r@) == personal_item_phrases(),
{
    let r = vec![
        "物品领取",
        "物品认领",
        "认领物品",
        "宿舍安全检查",
        "宿舍安全专项检查",
        "student hostel safety inspection",
    ];
    assert(views(r@) =~= personal_item_phrases());
    r
}

fn campus_sender_list() -> (r: Vec<&'static str>)
    ensures
        views(r@) == campus_senders(),
{
    let r = vec!["career@uic.edu.cn", "career@bnbu.edu.cn", "ic@bnbu.edu.cn"];
    assert(views(r@) =~= campus_senders());
    r
}

// ---------------------------------------------------------------------------
// Specification of the classification
// ---------------------------------------------------------------------------
/// The part of an address between its first `@` and the next one, or the end
/// (`email.split('@').nth(1)`, empty when there is no `@`).
pub open spec fn domain_of(email: Seq<char>) -> Seq<char> {
    match first_index_of(email, '@') {
        None => Seq::empty(),
        Some(i) => {
            let rest = email.subrange(i + 1, email.len() as int);
            match first_index_of(rest, '@') {
                None => rest,
                Some(j) => rest.subrange(0, j),
            }
        },
    }
}

/// The mail field that a rule looks at; `None` for an unknown field name.
pub open spec fn rule_source(mail: ParsedMail, field: Seq<char>) -> Option<Seq<char>> {
    if field == "sender"@ {
        Some(mail.sender_email@)
    } else if field == "domain"@ {
        Some(domain_of(mail.sender_email@))
    } else if field == "subject"@ {
        Some(mail.subject@)
    } else if field == "body"@ {
        Some(mail.body_text@)
    } else {
        None
    }
}

/// Whether a rule's operator accepts `source` for `value`.
pub open spec fn operator_matches(operator: Seq<char>, source: Seq<char>, value: Seq<char>) -> bool {
    if operator == "equals"@ {
        eq_ignore_ascii_case(source, value)
    } else if operator == "contains"@ {
        contains(unicode_lowercase(source), unicode_lowercase(value))
    } else if operator == "regex"@ {
        regex_ci_match(value, source)
    } else {
        false
    }
}

/// Whether an enabled rule applies to the mail.
pub open spec fn rule_matches(mail: ParsedMail, rule: ClassificationRule) -> bool {
    &&& rule.enabled
    &&& match rule_source(mail, rule.field@) {
        Some(source) => operator_matches(rule.operator@, source, rule.value@),
        None => false,
    }
}

/// Rule `i` decides the mail: it applies, and every other rule that applies
/// has a lower priority, or the same priority and comes later in the list.
pub open spec fn is_deciding_rule(mail: ParsedMail, rules: Seq<ClassificationRule>, i: int) -> bool {
    &&& 0 <= i < rules.len()
    &&& rule_matches(mail, rules[i])
    &&& forall|j: int|
        0 <= j < rules.len() && j != i && #[trigger] rule_matches(mail, rules[j]) ==> rules[j].priority
            < rules[i].priority || (rules[j].priority == rules[i].priority && i < j)
}

/// The reason given for a rule's decision.
pub open spec fn rule_reason(rule: ClassificationRule) -> Seq<char> {
    "规则："@ + rule.field@ + " "@ + rule.operator@ + " "@ + rule.value@
}

/// The reason given for a keyword's decision.
pub open spec fn keyword_reason(word: Seq<char>) -> Seq<char> {
    "关键词："@ + word
}

/// The lower-cased subject and body that the keywords are searched in.
pub open spec fn mail_text(mail: ParsedMail) -> Seq<char> {
    unicode_lowercase(mail.subject@ + seq!['\n'] + mail.body_text@)
}

/// The lower-cased forms of a list of words.
pub open spec fn lowered(words: Seq<Seq<char>>) -> Seq<Seq<char>> {
    words.map_values(|w: Seq<char>| unicode_lowercase(w))
}

/// Index of the first word of `words` that occurs in `text`.
pub open spec fn first_contained(text: Seq<char>, words: Seq<Seq<char>>) -> Option<int>
    decreases words.len(),
{
    if words.len() == 0 {
        None
    } else if contains(text, words[0]) {
        Some(0)
    } else {
        match first_contained(text, words.drop_first()) {
            Some(i) => Some(i + 1),
            None => None,
        }
    }
}

/// Whether the sender is one of the institutional senders, ignoring ASCII case.
pub open spec fn is_campus_sender(email: Seq<char>) -> bool {
    exists|i: int| 0 <= i < campus_senders().len() && eq_ignore_ascii_case(email, campus_senders()[i])
}

/// Classification of a group of words searched in their lower-cased form.
pub open spec fn group_decision(text: Seq<char>, category: Seq<char>, words: Seq<Seq<char>>) -> Option<
    (Seq<char>, Seq<char>),
> {
    match first_contained(text, lowered(words)) {
        Some(i) => Some((category, keyword_reason(words[i]))),
        None => None,
    }
}

/// Classification of a mail that no rule decides.
pub open spec fn keyword_classification(mail: ParsedMail) -> (Seq<char>, Seq<char>) {
    let text = mail_text(mail);
    match first_contained(text, internship_words()) {
        Some(i) => ("实习"@, keyword_reason(internship_words()[i])),
        None => match first_contained(text, personal_item_phrases()) {
            Some(i) => ("个人"@, keyword_reason(personal_item_phrases()[i])),
            None => match first_contained(text, campus_event_phrases()) {
                Some(i) => ("校园事务"@, keyword_reason(campus_event_phrases()[i])),
                None => if is_campus_sender(mail.sender_email@) {
                    ("校园事务"@, "校内来源："@ + mail.sender_email@)
                } else {
                    match group_decision(text, "实习"@, internship_words()) {
                        Some(d) => d,
                        None => match group_decision(text, "学业"@, academic_words()) {
                            Some(d) => d,
                            None => match group_decision(text, "校园事务"@, campus_affairs_words()) {
                                Some(d) => d,
                                None => match group_decision(text, "社团活动"@, club_activity_words()) {
                                    Some(d) => d,
                                    None => match group_decision(text, "个人"@, personal_words()) {
                                        Some(d) => d,
                                        None => ("外部"@, "未匹配校内或个人规则"@),
                                    },
                                },
                            },
                        },
                    }
                },
            },
        },
    }
}

/// The category of a mail and the reason for it: the deciding rule, if any
/// rule applies, else the keyword lists.
pub open spec fn classification(mail: ParsedMail, rules: Seq<ClassificationRule>) -> (
    Seq<char>,
    Seq<char>,
) {
    if exists|i: int| is_deciding_rule(mail, rules, i) {
        let i = choose|i: int| is_deciding_rule(mail, rules, i);
        (rules[i].category@, rule_reason(rules[i]))
    } else {
        keyword_classification(mail)
    }
}

// ---------------------------------------------------------------------------
// Regular expressions (regex crate)
// ---------------------------------------------------------------------------
/// Whether `pattern` compiles as a case-insensitive regular expression that
/// matches somewhere in `text`.
pub uninterp spec fn regex_ci_match(pattern: Seq<char>, text: Seq<char>) -> bool;

/// Builds `pattern` with `regex::RegexBuilder` (case-insensitive) and calls
/// `Regex::is_match` on `text`; a pattern that does not compile gives `false`.
/// The result is named `regex_ci_match` of the pattern and the text.
#[verifier::external_body]
fn regex_matches_ignore_case(pattern: &str, text: &str) -> (r: bool)
    ensures
        r == regex_ci_match(pattern@, text@),
{
    match regex::RegexBuilder::new(pattern).case_insensitive(true).build() {
        Ok(re) => re.is_match(text),
        Err(_) => false,
    }
}

// ---------------------------------------------------------------------------
// Implementation
// ---------------------------------------------------------------------------
proof fn lemma_first_contained(text: Seq<char>, words: Seq<Seq<char>>)
    ensures
        match first_contained(text, words) {
            Some(i) => 0 <= i < words.len() && contains(text, words[i]) && forall|j: int|
                0 <= j < i ==> !contains(text, #[trigger] words[j]),
            None => forall|j: int| 0 <= j < words.len() ==> !contains(text, #[trigger] words[j]),
        },
    decreases words.len(),
{
    if words.len() > 0 && !contains(text, words[0]) {
        let t = words.drop_first();
        lemma_first_contained(text, t);
        assert forall|j: int| 1 <= j < words.len() implies words[j] == t[j - 1] by {}
    }
}

/// The domain part of an address, as `domain_of` states it.
pub fn domain_part(email: &[char]) -> (r: Vec<char>)
    ensures
        r@ == domain_of(email@),
{
    match find_char(email, '@') {
        None => Vec::new(),
        Some(i) => {
            proof {
                lemma_first_index_of(email@, '@');
                assert(email@.len() == email.len());
            }
            let rest = slice_chars(email, i + 1, email.len());
            match find_char(&rest, '@') {
                None => rest,
                Some(j) => {
                    proof {
                        lemma_first_index_of(rest@, '@');
                    }
                    slice_chars(&rest, 0, j)
                },
            }
        },
    }
}

/// Index of the first of `words` (or of their lower-cased forms) in `text`.
fn find_first_word(text: &[char], words: &Vec<&'static str>, lower: bool) -> (r: Option<usize>)
    ensures
        r matches Some(i) ==> i < words@.len() && first_contained(
            text@,
            if lower {
                lowered(views(words@))
            } else {
                views(words@)
            },
        ) == Some(i as int),
        r is None ==> first_contained(
            text@,
            if lower {
                lowered(views(words@))
            } else {
                views(words@)
            },
        ) is None,
{
    let ghost target = if lower {
        lowered(views(words@))
    } else {
        views(words@)
    };
    proof {
        lemma_first_contained(text@, target);
    }
    let mut i: usize = 0;
    while i < words.len()
        invariant
            i <= words@.len(),
            target.len() == words@.len(),
            target == (if lower {
                lowered(views(words@))
            } else {
                views(words@)
            }),
            forall|j: int| 0 <= j < i ==> !contains(text@, #[trigger] target[j]),
            match first_contained(text@, target) {
                Some(k) => 0 <= k < target.len() && contains(text@, target[k]) && forall|j: int|
                    0 <= j < k ==> !contains(text@, #[trigger] target[j]),
                None => forall|j: int| 0 <= j < target.len() ==> !contains(text@, #[trigger] target[j]),
            },
        decreases words@.len() - i,
    {
        let word = chars_of(words[i]);
        let candidate = if lower {
            lowercase_chars(&word)
        } else {
            word
        };
        assert(candidate@ == target[i as int]);
        if contains_chars(text, &candidate) {
            return Some(i);
        }
        i = i + 1;
    }
    None
}

/// Whether `rule` applies to `mail`.
pub fn rule_applies(mail: &ParsedMail, rule: &ClassificationRule) -> (r: bool)
    ensures
        r == rule_matches(*mail, *rule),
{
    if !rule.enabled {
        return false;
    }
    let field = chars_of(rule.field.as_str());
    let sender = chars_of(mail.sender_email.as_str());
    let source: Vec<char> = if chars_equal_str(&field, "sender") {
        sender
    } else if chars_equal_str(&field, "domain") {
        domain_part(&sender)
    } else if chars_equal_str(&field, "subject") {
        chars_of(mail.subject.as_str())
    } else if chars_equal_str(&field, "body") {
        chars_of(mail.body_text.as_str())
    } else {
        return false;
    };
    let operator = chars_of(rule.operator.as_str());
    let value = chars_of(rule.value.as_str());
    if chars_equal_str(&operator, "equals") {
        chars_eq_ignore_ascii_case(&source, &value)
    } else if chars_equal_str(&operator, "contains") {
        let lower_source = lowercase_chars(&source);
        let lower_value = lowercase_chars(&value);
        contains_chars(&lower_source, &lower_value)
    } else if chars_equal_str(&operator, "regex") {
        let source_text = string_of(&source);
        regex_matches_ignore_case(rule.value.as_str(), source_text.as_str())
    } else {
        false
    }
}

/// Index of the deciding rule, if any rule applies.
pub fn deciding_rule(mail: &ParsedMail, rules: &[ClassificationRule]) -> (r: Option<usize>)
    ensures
        r matches Some(i) ==> is_deciding_rule(*mail, rules@, i as int),
        r is None ==> !exists|i: int| is_deciding_rule(*mail, rules@, i),
{
    let mut best: Option<usize> = None;
    let mut i: usize = 0;
    while i < rules.len()
        invariant
            i <= rules@.len(),
            best matches Some(b) ==> {
                &&& b < i
                &&& rule_matches(*mail, rules@[b as int])
                &&& forall|j: int|
                    0 <= j < i && j != b && #[trigger] rule_matches(*mail, rules@[j])
                        ==> rules@[j].priority < rules@[b as int].priority || (rules@[j].priority
                        == rules@[b as int].priority && b < j)
            },
            best is None ==> forall|j: int| 0 <= j < i ==> !#[trigger] rule_matches(*mail, rules@[j]),
        decreases rules@.len() - i,
    {
        if rule_applies(mail, &rules[i]) {
            match best {
                None => {
                    best = Some(i);
                },
                Some(b) => {
                    if rules[i].priority > rules[b].priority {
                        best = Some(i);
                    }
                },
            }
        }
        i = i + 1;
    }
    best
}

/// Searches one group of words and gives its decision.
fn group_of(text: &[char], category: &str, words: &Vec<&'static str>) -> (r: Option<(String, String)>)
    ensures
        match group_decision(text@, category@, views(words@)) {
            Some(d) => r matches Some(p) && p.0@ == d.0 && p.1@ == d.1,
            None => r is None,
        },
{
    match find_first_word(text, words, true) {
        Some(i) => {
            let mut reason: Vec<char> = chars_of("关键词：");
            assert(views(words@)[i as int] == words@[i as int]@);
            push_str(&mut reason, words[i]);
            Some((String::from_str(category), string_of(&reason)))
        },
        None => None,
    }
}

/// Classifies a mail: the user rules first, in descending priority (ties in
/// list order), then the built-in keyword lists; gives the category and the
/// reason for it.
pub fn classify(mail: &ParsedMail, rules: &[ClassificationRule]) -> (r: (String, String))
    requires
        forall|i: int| 0 <= i < rules@.len() ==> rules@[i].priority > i32::MIN,
    ensures
        (r.0@, r.1@) == classification(*mail, rules@),
{
    match deciding_rule(mail, rules) {
        Some(i) => {
            proof {
                let c = choose|k: int| is_deciding_rule(*mail, rules@, k);
                assert(is_deciding_rule(*mail, rules@, c));
                if c != i as int {
                    assert(rule_matches(*mail, rules@[c]));
                    assert(rule_matches(*mail, rules@[i as int]));
                }
            }
            let rule = &rules[i];
            let mut reason: Vec<char> = chars_of("规则：");
            push_str(&mut reason, rule.field.as_str());
            push_str(&mut reason, " ");
            push_str(&mut reason, rule.operator.as_str());
            push_str(&mut reason, " ");
            push_str(&mut reason, rule.value.as_str());
            return (rule.category.clone(), string_of(&reason));
        },
        None => {},
    }
    let mut joined: Vec<char> = chars_of(mail.subject.as_str());
    joined.push('\n');
    push_str(&mut joined, mail.body_text.as_str());
    proof {
        assert(joined@ =~= mail.subject@ + seq!['\n'] + mail.body_text@);
    }
    let text = lowercase_chars(&joined);
    let internship = internship_list();
    let personal_items = personal_item_list();
    let campus_events = campus_event_list();
    match find_first_word(&text, &internship, false) {
        Some(i) => {
            let mut reason: Vec<char> = chars_of("关键词：");
            assert(views(internship@)[i as int] == internship@[i as int]@);
            push_str(&mut reason, internship[i]);
            return (String::from_str("实习"), string_of(&reason));
        },
        None => {},
    }
    match find_first_word(&text, &personal_items, false) {
        Some(i) => {
            let mut reason: Vec<char> = chars_of("关键词：");
            assert(views(personal_items@)[i as int] == personal_items@[i as int]@);
            push_str(&mut reason, personal_items[i]);
            return (String::from_str("个人"), string_of(&reason));
        },
        None => {},
    }
    match find_first_word(&text, &campus_events, false) {
        Some(i) => {
            let mut reason: Vec<char> = chars_of("关键词：");
            assert(views(campus_events@)[i as int] == campus_events@[i as int]@);
            push_str(&mut reason, campus_events[i]);
            return (String::from_str("校园事务"), string_of(&reason));
        },
        None => {},
    }
    let senders = campus_sender_list();
    let sender = chars_of(mail.sender_email.as_str());
    let mut k: usize = 0;
    while k < senders.len()
        invariant
            k <= senders@.len(),
            views(senders@) == campus_senders(),
            sender@ == mail.sender_email@,
            text@ == mail_text(*mail),
            first_contained(text@, internship_words()) is None,
            first_contained(text@, personal_item_phrases()) is None,
            first_contained(text@, campus_event_phrases()) is None,
            !exists|i: int| is_deciding_rule(*mail, rules@, i),
            forall|j: int| 0 <= j < k ==> !eq_ignore_ascii_case(sender@, #[trigger] campus_senders()[j]),
        decreases senders@.len() - k,
    {
        let candidate = chars_of(senders[k]);
        assert(candidate@ == campus_senders()[k as int]);
        if chars_eq_ignore_ascii_case(&sender, &candidate) {
            assert(eq_ignore_ascii_case(mail.sender_email@, campus_senders()[k as int]));
            assert(is_campus_sender(mail.sender_email@));
            let mut reason: Vec<char> = chars_of("校内来源：");
            push_str(&mut reason, mail.sender_email.as_str());

            return (String::from_str("校园事务"), string_of(&reason));
        }
        k = k + 1;
    }
    match group_of(&text, "实习", &internship) {
        Some(d) => {
            return d;
        },
        None => {},
    }
    let academic = academic_list();
    match group_of(&text, "学业", &academic) {
        Some(d) => {
            return d;
        },
        None => {},
    }
    let campus = campus_affairs_list();
    match group_of(&text, "校园事务", &campus) {
        Some(d) => {
            return d;
        },
        None => {},
    }
    let club = club_activity_list();
    match group_of(&text, "社团活动", &club) {
        Some(d) => {
            return d;
        },
        None => {},
    }
    let personal = personal_list();
    match group_of(&text, "个人", &personal) {
        Some(d) => {
            return d;
        },
        None => {},
    }
    (String::from_str("外部"), String::from_str("未匹配校内或个人规则"))
}

// ---------------------------------------------------------------------------
// Laws of the classification
// ---------------------------------------------------------------------------
/// The rule among the first `n` that decides the mail, if any of them applies:
/// the applicable one of highest priority, the first of those on a tie.
spec fn best_rule(mail: ParsedMail, rules: Seq<ClassificationRule>, n: nat) -> Option<int>
    decreases n,
{
    if n == 0 {
        None
    } else {
        let b = best_rule(mail, rules, (n - 1) as nat);
        if rule_matches(mail, rules[n - 1]) && (b is None || rules[n - 1].priority
            > rules[b->0].priority) {
            Some(n - 1)
        } else {
            b
        }
    }
}

proof fn lemma_best_rule(mail: ParsedMail, rules: Seq<ClassificationRule>, n: nat)
    requires
        n <= rules.len(),
    ensures
        match best_rule(mail, rules, n) {
            Some(b) => 0 <= b < n && rule_matches(mail, rules[b]) && forall|j: int|
                0 <= j < n && j != b && #[trigger] rule_matches(mail, rules[j])
                    ==> rules[j].priority < rules[b].priority || (rules[j].priority
                    == rules[b].priority && b < j),
            None => forall|j: int| 0 <= j < n ==> !#[trigger] rule_matches(mail, rules[j]),
        },
    decreases n,
{
    if n > 0 {
        lemma_best_rule(mail, rules, (n - 1) as nat);
    }
}

/// Rules come before keywords: when some enabled rule applies to a mail, the
/// mail gets the category of an applicable rule whose priority no other
/// applicable rule exceeds and that every earlier applicable rule has a lower
/// priority than (ties go to the earlier rule), with that rule as the reason;
/// when none applies, the keyword lists decide.
pub proof fn lemma_rules_take_precedence(mail: ParsedMail, rules: Seq<ClassificationRule>)
    ensures
        (exists|i: int| 0 <= i < rules.len() && #[trigger] rule_matches(mail, rules[i])) ==> exists|
            k: int,
        |
            0 <= k < rules.len() && #[trigger] rule_matches(mail, rules[k]) && (forall|j: int|
                0 <= j < rules.len() && #[trigger] rule_matches(mail, rules[j])
                    ==> rules[j].priority <= rules[k].priority) && (forall|j: int|
                0 <= j < k && #[trigger] rule_matches(mail, rules[j]) ==> rules[j].priority
                    < rules[k].priority) && classification(mail, rules) == (
                rules[k].category@,
                "规则："@ + rules[k].field@ + " "@ + rules[k].operator@ + " "@ + rules[k].value@,
            ),
        (forall|i: int| 0 <= i < rules.len() ==> !#[trigger] rule_matches(mail, rules[i]))
            ==> classification(mail, rules) == keyword_classification(mail),
{
    lemma_best_rule(mail, rules, rules.len());
    match best_rule(mail, rules, rules.len()) {
        Some(b) => {
            assert(is_deciding_rule(mail, rules, b));
            let c = choose|i: int| is_deciding_rule(mail, rules, i);
            assert(is_deciding_rule(mail, rules, c));
            assert(rule_matches(mail, rules[c]));
            assert forall|j: int|
                0 <= j < rules.len() && #[trigger] rule_matches(mail, rules[j]) implies rules[j].priority
                <= rules[c].priority by {
                if j != c {
                    assert(rules[j].priority < rules[c].priority || rules[j].priority
                        == rules[c].priority);
                }
            }
            assert forall|j: int| 0 <= j < c && #[trigger] rule_matches(mail, rules[j]) implies rules[j].priority
                < rules[c].priority by {
                assert(j != c);
            }
        },
        None => {
            if exists|i: int| is_deciding_rule(mail, rules, i) {
                let c = choose|i: int| is_deciding_rule(mail, rules, i);
                assert(rule_matches(mail, rules[c]));
            }
        },
    }
}

/// The keyword lists only ever give one of six categories: internship,
/// personal, campus affairs, academics, club activities or external; never
/// the to-do category, which is set by hand.
pub proof fn lemma_keyword_categories(mail: ParsedMail)
    ensures
        ({
            let c = keyword_classification(mail).0;
            c == "实习"@ || c == "个人"@ || c == "校园事务"@ || c == "学业"@ || c == "社团活动"@ || c
                == "外部"@
        }),
        keyword_classification(mail).0 != "待办"@,
{
    reveal_strlit("待办");
    reveal_strlit("实习");
    reveal_strlit("个人");
    reveal_strlit("校园事务");
    reveal_strlit("学业");
    reveal_strlit("社团活动");
    reveal_strlit("外部");
    assert("待办"@[0] != "实习"@[0]);
    assert("待办"@[0] != "个人"@[0]);
    assert("待办"@[0] != "校园事务"@[0]);
    assert("待办"@[0] != "学业"@[0]);
    assert("待办"@[0] != "社团活动"@[0]);
    assert("待办"@[0] != "外部"@[0]);
}

/// `words[i]` is the first of `words` that occurs in `text`.
pub open spec fn first_found(text: Seq<char>, words: Seq<Seq<char>>, i: int) -> bool {
    &&& 0 <= i < words.len()
    &&& contains(text, words[i])
    &&& forall|j: int| 0 <= j < i ==> !contains(text, #[trigger] words[j])
}

/// None of `words` occurs in `text`.
pub open spec fn none_found(text: Seq<char>, words: Seq<Seq<char>>) -> bool {
    forall|j: int| 0 <= j < words.len() ==> !contains(text, #[trigger] words[j])
}

proof fn lemma_first_contained_is_first_found(text: Seq<char>, words: Seq<Seq<char>>)
    ensures
        forall|i: int| first_found(text, words, i) ==> first_contained(text, words) == Some(i),
        none_found(text, words) ==> first_contained(text, words) is None,
{
    lemma_first_contained(text, words);
    assert forall|i: int| first_found(text, words, i) implies first_contained(text, words) == Some(
        i,
    ) by {
        match first_contained(text, words) {
            Some(j) => {
                if j < i {
                    assert(!contains(text, words[j]));
                } else if j > i {
                    assert(!contains(text, words[i]));
                }
            },
            None => {
                assert(!contains(text, words[i]));
            },
        }
    }
    if none_found(text, words) {
        match first_contained(text, words) {
            Some(j) => {
                assert(!contains(text, words[j]));
            },
            None => {},
        }
    }
}

/// How the keyword lists decide a mail that no rule decides, in terms of the
/// lower-cased subject and body `t` (joined by a newline) and the sender:
/// the first internship word found in `t` gives 实习; else the first
/// personal-item phrase gives 个人; else the first campus-event phrase gives
/// 校园事务; else a campus sender (ignoring ASCII case) gives 校园事务 with the
/// sender as reason; else the lower-cased internship, academic, campus
/// affairs, club activity and personal words are searched in that order and
/// the first word found in the first group that has one gives that group's
/// category; else the mail is external. Each keyword reason names the word.
pub proof fn lemma_keyword_decisions(mail: ParsedMail, rules: Seq<ClassificationRule>)
    requires
        forall|j: int| 0 <= j < rules.len() ==> !#[trigger] rule_matches(mail, rules[j]),
    ensures
        ({
            let t = unicode_lowercase(mail.subject@ + seq!['\n'] + mail.body_text@);
            let c = classification(mail, rules);
            let phrases_absent = none_found(t, internship_words()) && none_found(
                t,
                personal_item_phrases(),
            ) && none_found(t, campus_event_phrases());
            let not_campus = forall|k: int|
                0 <= k < campus_senders().len() ==> !eq_ignore_ascii_case(
                    mail.sender_email@,
                    #[trigger] campus_senders()[k],
                );
            &&& forall|i: int|
                #[trigger] first_found(t, internship_words(), i) ==> c == ("实习"@, "关键词："@
                    + internship_words()[i])
            &&& forall|i: int|
                none_found(t, internship_words()) && #[trigger] first_found(
                    t,
                    personal_item_phrases(),
                    i,
                ) ==> c == ("个人"@, "关键词："@ + personal_item_phrases()[i])
            &&& forall|i: int|
                none_found(t, internship_words()) && none_found(t, personal_item_phrases())
                    && #[trigger] first_found(t, campus_event_phrases(), i) ==> c == (
                    "校园事务"@,
                    "关键词："@ + campus_event_phrases()[i],
                )
            &&& phrases_absent && !not_campus ==> c == (
                "校园事务"@,
                "校内来源："@ + mail.sender_email@,
            )
            &&& forall|i: int|
                phrases_absent && not_campus && #[trigger] first_found(
                    t,
                    lowered(internship_words()),
                    i,
                ) ==> c == ("实习"@, "关键词："@ + internship_words()[i])
            &&& forall|i: int|
                phrases_absent && not_campus && none_found(t, lowered(internship_words()))
                    && #[trigger] first_found(t, lowered(academic_words()), i) ==> c == (
                    "学业"@,
                    "关键词："@ + academic_words()[i],
                )
            &&& forall|i: int|
                phrases_absent && not_campus && none_found(t, lowered(internship_words()))
                    && none_found(t, lowered(academic_words())) && #[trigger] first_found(
                    t,
                    lowered(campus_affairs_words()),
                    i,
                ) ==> c == ("校园事务"@, "关键词："@ + campus_affairs_words()[i])
            &&& forall|i: int|
                phrases_absent && not_campus && none_found(t, lowered(internship_words()))
                    && none_found(t, lowered(academic_words())) && none_found(
                    t,
                    lowered(campus_affairs_words()),
                ) && #[trigger] first_found(t, lowered(club_activity_words()), i) ==> c == (
                    "社团活动"@,
                    "关键词："@ + club_activity_words()[i],
                )
            &&& forall|i: int|
                phrases_absent && not_campus && none_found(t, lowered(internship_words()))
                    && none_found(t, lowered(academic_words())) && none_found(
                    t,
                    lowered(campus_affairs_words()),
                ) && none_found(t, lowered(club_activity_words())) && #[trigger] first_found(
                    t,
                    lowered(personal_words()),
                    i,
                ) ==> c == ("个人"@, "关键词："@ + personal_words()[i])
            &&& phrases_absent && not_campus && none_found(t, lowered(internship_words()))
                && none_found(t, lowered(academic_words())) && none_found(
                t,
                lowered(campus_affairs_words()),
            ) && none_found(t, lowered(club_activity_words())) && none_found(
                t,
                lowered(personal_words()),
            ) ==> c == ("外部"@, "未匹配校内或个人规则"@)
        }),
{
    lemma_rules_take_precedence(mail, rules);
    let t = unicode_lowercase(mail.subject@ + seq!['\n'] + mail.body_text@);
    assert(t == mail_text(mail));
    lemma_first_contained_is_first_found(t, internship_words());
    lemma_first_contained_is_first_found(t, personal_item_phrases());
    lemma_first_contained_is_first_found(t, campus_event_phrases());
    lemma_first_contained_is_first_found(t, lowered(internship_words()));
    lemma_first_contained_is_first_found(t, lowered(academic_words()));
    lemma_first_contained_is_first_found(t, lowered(campus_affairs_words()));
    lemma_first_contained_is_first_found(t, lowered(club_activity_words()));
    lemma_first_contained_is_first_found(t, lowered(personal_words()));
    let not_campus = forall|k: int|
        0 <= k < campus_senders().len() ==> !eq_ignore_ascii_case(
            mail.sender_email@,
            #[trigger] campus_senders()[k],
        );
    assert(is_campus_sender(mail.sender_email@) <==> !not_campus);
}

/// When a rule applies to a mail: it is enabled, its field names the
/// sender's address, the domain (the part after the first `@`, up to any
/// further `@`), the subject or the body, and its operator is `equals`
/// (ignoring ASCII case), `contains` (both sides lower-cased) or `regex`
/// (a case-insensitive match of its value); nothing else applies.
pub proof fn lemma_rule_semantics(mail: ParsedMail, rule: ClassificationRule)
    ensures
        ({
            let f = rule.field@;
            let o = rule.operator@;
            let email = mail.sender_email@;
            let source = if f == "sender"@ {
                email
            } else if f == "domain"@ {
                match first_index_of(email, '@') {
                    None => Seq::empty(),
                    Some(i) => {
                        let rest = email.subrange(i + 1, email.len() as int);
                        match first_index_of(rest, '@') {
                            None => rest,
                            Some(j) => rest.subrange(0, j),
                        }
                    },
                }
            } else if f == "subject"@ {
                mail.subject@
            } else {
                mail.body_text@
            };
            let known_field = f == "sender"@ || f == "domain"@ || f == "subject"@ || f == "body"@;
            rule_matches(mail, rule) <==> rule.enabled && known_field && ((o == "equals"@
                && eq_ignore_ascii_case(source, rule.value@)) || (o == "contains"@ && contains(
                unicode_lowercase(source),
                unicode_lowercase(rule.value@),
            )) || (o == "regex"@ && regex_ci_match(rule.value@, source)))
        }),
{
    reveal_strlit("equals");
    reveal_strlit("contains");
    reveal_strlit("regex");
    assert("equals"@ != "contains"@) by {
        assert("equals"@[0] != "contains"@[0]);
    }
    assert("equals"@ != "regex"@) by {
        assert("equals"@[0] != "regex"@[0]);
    }
    assert("contains"@ != "regex"@) by {
        assert("contains"@[0] != "regex"@[0]);
    }
}

} // verus!
