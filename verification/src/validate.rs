//! Validation of a memory file: frontmatter structure, required fields, a
//! non-empty body, and no machine-local paths.

use vstd::prelude::*;

use crate::bindings::{compile_regex, regex_compiles, regex_is_match, regex_matches};
use crate::frontmatter::{
    block_end, block_fields, find_block_end, fields_present, is_fence, is_fence_line,
    key_value, key_value_of, lemma_field_keys_distinct, last_value,
};
use crate::memory_type::{parse_type, MemoryType};
use crate::text::{
    chars_eq, chars_of, decimal, is_blank, is_blank_chars, lemma_char_vec_deep_view,
    lemma_lines_len, lemma_trim_len, lines, push_decimal, split_lines, string_of,
};

verus! {

broadcast use lemma_char_vec_deep_view;

/// The regular expression for machine-local home directories
/// (`/home/<user>`, `/Users/<user>`, `C:\Users\<user>`).
pub const LOCAL_PATH_PATTERN: &'static str = r"(?:/home/\w+|/Users/\w+|C:\\Users\\\w+)";

/// A validation issue found in a memory file.
#[derive(Debug, Clone)]
pub struct Issue {
    pub file: String,
    pub line: usize,
    pub message: String,
    pub warning: bool,
}

/// The mathematical value of an `Issue`.
pub struct IssueModel {
    pub file: Seq<char>,
    pub line: usize,
    pub message: Seq<char>,
    pub warning: bool,
}

impl View for Issue {
    type V = IssueModel;

    open spec fn view(&self) -> IssueModel {
        IssueModel {
            file: self.file@,
            line: self.line,
            message: self.message@,
            warning: self.warning,
        }
    }
}

/// The one-line report of an issue: `<file>:<line>: <error|warning>: <message>`.
pub open spec fn issue_report(i: IssueModel) -> Seq<char> {
    let level = if i.warning {
        "warning"@
    } else {
        "error"@
    };
    i.file + ":"@ + decimal(i.line as nat) + ": "@ + level + ": "@ + i.message
}

impl Issue {
    /// The one-line report of this issue (see `issue_report`).
    pub fn to_string(&self) -> (r: String)
        ensures
            r@ == issue_report(self@),
    {
        let mut out = self.file.clone();
        out.append(":");
        push_decimal(&mut out, self.line);
        out.append(": ");
        if self.warning {
            out.append("warning");
        } else {
            out.append("error");
        }
        out.append(": ");
        out.append(self.message.as_str());
        out
    }
}

/// The views of a sequence of issues.
pub open spec fn issue_views(v: Seq<Issue>) -> Seq<IssueModel> {
    v.map_values(|i: Issue| i@)
}

/// An issue with the given fields.
pub open spec fn issue(file: Seq<char>, line: usize, message: Seq<char>, warning: bool) -> IssueModel {
    IssueModel { file, line, message, warning }
}

pub open spec fn msg_missing_frontmatter() -> Seq<char> {
    "missing frontmatter (file must start with ---)"@
}

pub open spec fn msg_unclosed() -> Seq<char> {
    "unclosed frontmatter (missing closing ---)"@
}

pub open spec fn msg_missing_field(field: Seq<char>) -> Seq<char> {
    "frontmatter missing required field: "@ + field
}

pub open spec fn msg_invalid_type(value: Seq<char>) -> Seq<char> {
    "invalid type: "@ + value + " (expected user/feedback/project/reference)"@
}

pub open spec fn msg_empty_body() -> Seq<char> {
    "memory body is empty (content required after frontmatter)"@
}

pub open spec fn msg_local_path() -> Seq<char> {
    "machine-local path detected"@
}

/// Whether some `type` line of `block` (empty value included) names a valid type.
pub open spec fn some_valid_type(block: Seq<Seq<char>>) -> bool
    decreases block.len(),
{
    if block.len() == 0 {
        false
    } else {
        match key_value(block.last()) {
            Some((k, v)) => (k == "type"@ && parse_type(v) is Ok) || some_valid_type(
                block.drop_last(),
            ),
            None => some_valid_type(block.drop_last()),
        }
    }
}

/// The value of the last `type` line of `block` whose value is non-empty and
/// names no valid type.
pub open spec fn bad_type(block: Seq<Seq<char>>) -> Option<Seq<char>>
    decreases block.len(),
{
    if block.len() == 0 {
        None
    } else {
        match key_value(block.last()) {
            Some((k, v)) => if k == "type"@ && parse_type(v) is Err && v.len() > 0 {
                Some(v)
            } else {
                bad_type(block.drop_last())
            },
            None => bad_type(block.drop_last()),
        }
    }
}

/// The issues reported for a frontmatter block that lacks a required field
/// or has an invalid type.
pub open spec fn field_issues(file: Seq<char>, block: Seq<Seq<char>>) -> Seq<IssueModel> {
    let name = if last_value(block, "name"@) is Some {
        Seq::empty()
    } else {
        seq![issue(file, 1, msg_missing_field("name"@), false)]
    };
    let description = if last_value(block, "description"@) is Some {
        Seq::empty()
    } else {
        seq![issue(file, 1, msg_missing_field("description"@), false)]
    };
    let kind = match bad_type(block) {
        Some(bad) => seq![issue(file, 1, msg_invalid_type(bad), false)],
        None => if some_valid_type(block) {
            Seq::empty()
        } else {
            seq![issue(file, 1, msg_missing_field("type"@), false)]
        },
    };
    name + description + kind
}

/// Whether every line of `ls` from index `from` on is blank.
pub open spec fn blank_from(ls: Seq<Seq<char>>, from: int) -> bool {
    forall|j: int| from <= j < ls.len() ==> #[trigger] is_blank(ls[j])
}

/// Whether line `i` is marked as holding a machine-local path.
pub open spec fn hit(hits: Seq<bool>, i: int) -> bool {
    0 <= i < hits.len() && hits[i]
}

/// The warnings for the marked lines among the first `n` lines, in order.
pub open spec fn path_warnings(file: Seq<char>, hits: Seq<bool>, n: nat) -> Seq<IssueModel>
    decreases n,
{
    if n == 0 {
        Seq::empty()
    } else {
        let before = path_warnings(file, hits, (n - 1) as nat);
        if hit(hits, n - 1) {
            before.push(issue(file, n as usize, msg_local_path(), true))
        } else {
            before
        }
    }
}

/// The issues for `content`, given which of its lines hold a machine-local
/// path (`hits[i]` for line `i`, 0-based; lines past the end of `hits` hold
/// none).
pub open spec fn issues_of(file: Seq<char>, content: Seq<char>, hits: Seq<bool>) -> Seq<IssueModel> {
    let ls = lines(content);
    if !(ls.len() > 0 && is_fence(ls[0])) {
        seq![issue(file, 1, msg_missing_frontmatter(), false)]
    } else {
        match block_end(ls) {
            None => seq![issue(file, 1, msg_unclosed(), false)],
            Some(c) => {
                let block = ls.subrange(1, c);
                if block_fields(block) is None {
                    field_issues(file, block)
                } else {
                    let body = if blank_from(ls, c + 1) {
                        seq![issue(file, (c + 2) as usize, msg_empty_body(), false)]
                    } else {
                        Seq::empty()
                    };
                    body + path_warnings(file, hits, ls.len())
                }
            },
        }
    }
}

/// Which lines the machine-local path pattern matches.
pub open spec fn local_path_hits(ls: Seq<Seq<char>>) -> Seq<bool> {
    Seq::new(
        ls.len(),
        |i: int|
            regex_compiles(LOCAL_PATH_PATTERN@) && regex_is_match(LOCAL_PATH_PATTERN@, ls[i]),
    )
}

fn push_issue(issues: &mut Vec<Issue>, file: &str, line: usize, message: String, warning: bool)
    ensures
        issue_views(final(issues)@) == issue_views(old(issues)@).push(
            issue(file@, line, message@, warning),
        ),
{
    let ghost before = issues@;
    issues.push(Issue { file: file.to_owned(), line, message, warning });
    assert(issue_views(issues@) =~= issue_views(before).push(issue(file@, line, message@, warning)));
}

/// The issues of a frontmatter block that does not describe a complete
/// frontmatter (`ls[1..end]`).
fn check_fields(file: &str, ls: &Vec<Vec<char>>, end: usize) -> (r: Vec<Issue>)
    requires
        1 <= end <= ls@.len(),
    ensures
        issue_views(r@) == field_issues(file@, ls.deep_view().subrange(1, end as int)),
{
    let ghost lv = ls.deep_view();
    let name_key = chars_of("name");
    let description_key = chars_of("description");
    let type_key = chars_of("type");
    let mut has_name = false;
    let mut has_description = false;
    let mut has_type = false;
    let mut bad: Option<Vec<char>> = None;
    let mut i: usize = 1;
    while i < end
        invariant
            1 <= i <= end <= ls@.len(),
            lv == ls.deep_view(),
            name_key@ == "name"@,
            description_key@ == "description"@,
            type_key@ == "type"@,
            has_name == last_value(lv.subrange(1, i as int), "name"@) is Some,
            has_description == last_value(lv.subrange(1, i as int), "description"@) is Some,
            has_type == some_valid_type(lv.subrange(1, i as int)),
            match bad {
                Some(b) => bad_type(lv.subrange(1, i as int)) == Some(b@),
                None => bad_type(lv.subrange(1, i as int)) is None,
            },
        decreases end - i,
    {
        let ghost prev = lv.subrange(1, i as int);
        let ghost next = lv.subrange(1, i + 1);
        assert(next.drop_last() =~= prev);
        assert(next.last() == ls@[i as int]@);
        proof {
            lemma_field_keys_distinct();
        }
        match key_value_of(&ls[i]) {
            Some((key, value)) => {
                if chars_eq(&key, &name_key) {
                    if value.len() > 0 {
                        has_name = true;
                    }
                } else if chars_eq(&key, &description_key) {
                    if value.len() > 0 {
                        has_description = true;
                    }
                } else if chars_eq(&key, &type_key) {
                    let parsed = MemoryType::from_str(string_of(&value).as_str());
                    if parsed.is_ok() {
                        has_type = true;
                    } else if value.len() > 0 {
                        bad = Some(value);
                    }
                }
            },
            None => {},
        }
        i = i + 1;
    }
    let ghost block = lv.subrange(1, end as int);
    let mut issues: Vec<Issue> = Vec::new();
    if !has_name {
        let mut msg = "frontmatter missing required field: ".to_owned();
        msg.append("name");
        push_issue(&mut issues, file, 1, msg, false);
    }
    if !has_description {
        let mut msg = "frontmatter missing required field: ".to_owned();
        msg.append("description");
        push_issue(&mut issues, file, 1, msg, false);
    }
    match bad {
        Some(b) => {
            let mut msg = "invalid type: ".to_owned();
            msg.append(string_of(&b).as_str());
            msg.append(" (expected user/feedback/project/reference)");
            push_issue(&mut issues, file, 1, msg, false);
        },
        None => {
            if !has_type {
                let mut msg = "frontmatter missing required field: ".to_owned();
                msg.append("type");
                push_issue(&mut issues, file, 1, msg, false);
            }
        },
    }
    assert(issue_views(issues@) =~= field_issues(file@, block));
    issues
}

/// The issues for the lines `ls` of a file, given which lines hold a
/// machine-local path.
fn check_lines(file: &str, ls: &Vec<Vec<char>>, hits: &Vec<bool>, Ghost(content): Ghost<Seq<char>>) -> (r: Vec<Issue>)
    requires
        ls.deep_view() == lines(content),
        content.len() <= usize::MAX,
    ensures
        issue_views(r@) == issues_of(file@, content, hits@),
{
    let ghost lv = ls.deep_view();
    let mut issues: Vec<Issue> = Vec::new();
    if ls.len() == 0 || !is_fence_line(&ls[0]) {
        push_issue(&mut issues, file, 1, "missing frontmatter (file must start with ---)".to_owned(), false);
        assert(issue_views(issues@) =~= issues_of(file@, content, hits@));
        return issues;
    }
    assert(lv[0] == ls@[0]@);
    let end = match find_block_end(ls) {
        Some(end) => end,
        None => {
            push_issue(&mut issues, file, 1, "unclosed frontmatter (missing closing ---)".to_owned(), false);
            assert(issue_views(issues@) =~= issues_of(file@, content, hits@));
            return issues;
        },
    };
    if !fields_present(ls, end) {
        return check_fields(file, ls, end);
    }
    // the body: every line after the closing delimiter
    let n = ls.len();
    let mut blank = true;
    let mut j: usize = end + 1;
    while j < n
        invariant
            end < n,
            n == ls@.len(),
            end + 1 <= j <= n,
            lv == ls.deep_view(),
            blank == (forall|k: int| end + 1 <= k < j ==> #[trigger] is_blank(lv[k])),
        decreases n - j,
    {
        assert(lv[j as int] == ls@[j as int]@);
        if !is_blank_chars(&ls[j]) {
            blank = false;
        }
        j = j + 1;
    }
    assert(blank == blank_from(lv, end + 1));
    if blank {
        proof {
            lemma_lines_len(content);
            lemma_trim_len(lv[0]);
            reveal_strlit("---");
            assert("---"@.len() == 3);
        }
        push_issue(&mut issues, file, end + 2, "memory body is empty (content required after frontmatter)".to_owned(), false);
    }
    let ghost body_part = issue_views(issues@);
    for i in 0..n
        invariant
            n == ls@.len(),
            n == lv.len(),
            issue_views(issues@) == body_part + path_warnings(file@, hits@, i as nat),
    {
        if i < hits.len() && hits[i] {
            push_issue(&mut issues, file, i + 1, "machine-local path detected".to_owned(), true);
        }
        assert(issue_views(issues@) =~= body_part + path_warnings(file@, hits@, (i + 1) as nat));
    }
    issues
}

/// Which lines of `ls` the machine-local path pattern matches (see
/// `local_path_hits`).
fn scan_local_paths(ls: &Vec<Vec<char>>) -> (r: Vec<bool>)
    ensures
        r@ == local_path_hits(ls.deep_view()),
{
    let ghost lv = ls.deep_view();
    let n = ls.len();
    let mut hits: Vec<bool> = Vec::new();
    match compile_regex(LOCAL_PATH_PATTERN) {
        Some(re) => {
            for i in 0..n
                invariant
                    n == ls@.len(),
                    lv == ls.deep_view(),
                    re.source() == LOCAL_PATH_PATTERN@,
                    regex_compiles(LOCAL_PATH_PATTERN@),
                    hits@ =~= local_path_hits(lv).take(i as int),
            {
                assert(lv[i as int] == ls@[i as int]@);
                let line = string_of(&ls[i]);
                let m = regex_matches(&re, line.as_str());
                assert(m == local_path_hits(lv)[i as int]);
                hits.push(m);
                assert(local_path_hits(lv).take(i + 1) =~= local_path_hits(lv).take(i as int).push(m));
            }
        },
        None => {
            for i in 0..n
                invariant
                    n == ls@.len(),
                    n == lv.len(),
                    !regex_compiles(LOCAL_PATH_PATTERN@),
                    hits@ =~= local_path_hits(lv).take(i as int),
            {
                hits.push(false);
            }
        },
    }
    assert(hits@ =~= local_path_hits(lv));
    hits
}

/// Validates a memory file, given which of its lines (0-based) hold a
/// machine-local path: the checks of `validate_memory` with the path test
/// answered by `local_path_hits`.
pub fn validate_memory_with_hits(path: &str, content: &str, local_path_hits: &Vec<bool>) -> (r: Vec<Issue>)
    ensures
        issue_views(r@) == issues_of(path@, content@, local_path_hits@),
{
    let chars = chars_of(content);
    let ls = split_lines(&chars);
    assert(chars@.len() == chars.len());
    check_lines(path, &ls, local_path_hits, Ghost(content@))
}

/// Validate a single memory file, returning any issues found.
pub fn validate_memory(path: &str, content: &str) -> (r: Vec<Issue>)
    ensures
        issue_views(r@) == issues_of(path@, content@, local_path_hits(lines(content@))),
{
    let chars = chars_of(content);
    let ls = split_lines(&chars);
    let hits = scan_local_paths(&ls);
    assert(chars@.len() == chars.len());
    check_lines(path, &ls, &hits, Ghost(content@))
}

} // verus!
