//! The frontmatter block of a memory file: a `---` line, `key: value` lines,
//! and a closing `---` line.

use vstd::prelude::*;

use crate::memory_type::{parse_type, MemoryType};
use crate::text::{
    chars_eq, chars_of, lemma_char_vec_deep_view, lemma_lines_len, lemma_trim_len, lines,
    split_lines, split_once, split_once_chars, string_of, trim, trim_chars,
};

verus! {

broadcast use lemma_char_vec_deep_view;

/// Parsed YAML frontmatter from a memory file.
#[derive(Debug, Clone)]
pub struct MemoryFrontmatter {
    pub name: String,
    pub description: String,
    pub memory_type: MemoryType,
    pub scope: Option<String>,
}

/// The mathematical value of a `MemoryFrontmatter`.
pub struct FrontmatterModel {
    pub name: Seq<char>,
    pub description: Seq<char>,
    pub memory_type: MemoryType,
    pub scope: Option<Seq<char>>,
}

/// The characters of an optional string.
pub open spec fn opt_chars(o: Option<String>) -> Option<Seq<char>> {
    match o {
        Some(s) => Some(s@),
        None => None,
    }
}

impl View for MemoryFrontmatter {
    type V = FrontmatterModel;

    open spec fn view(&self) -> FrontmatterModel {
        FrontmatterModel {
            name: self.name@,
            description: self.description@,
            memory_type: self.memory_type,
            scope: opt_chars(self.scope),
        }
    }
}

/// The view of an optional frontmatter.
pub open spec fn opt_frontmatter(o: Option<MemoryFrontmatter>) -> Option<FrontmatterModel> {
    match o {
        Some(fm) => Some(fm@),
        None => None,
    }
}

/// A delimiter line: `---` once surrounding whitespace is removed.
pub open spec fn is_fence(line: Seq<char>) -> bool {
    trim(line) == "---"@
}

/// The index of the first delimiter line in `ls`, if any.
pub open spec fn first_fence(ls: Seq<Seq<char>>) -> Option<int>
    decreases ls.len(),
{
    if ls.len() == 0 {
        None
    } else if is_fence(ls[0]) {
        Some(0)
    } else {
        match first_fence(ls.drop_first()) {
            Some(k) => Some(k + 1),
            None => None,
        }
    }
}

/// The index of the closing delimiter of the frontmatter in `ls`: `ls` must
/// open with a delimiter line, and the closing one is the next one after it.
pub open spec fn block_end(ls: Seq<Seq<char>>) -> Option<int> {
    if ls.len() > 0 && is_fence(ls[0]) {
        match first_fence(ls.drop_first()) {
            Some(k) => Some(k + 1),
            None => None,
        }
    } else {
        None
    }
}

/// A `key: value` line split at its first colon, both sides trimmed.
pub open spec fn key_value(line: Seq<char>) -> Option<(Seq<char>, Seq<char>)> {
    match split_once(line, ':') {
        Some((k, v)) => Some((trim(k), trim(v))),
        None => None,
    }
}

/// Whether `line` sets `key` to a non-empty value.
pub open spec fn sets(line: Seq<char>, key: Seq<char>) -> bool {
    match key_value(line) {
        Some((k, v)) => k == key && v.len() > 0,
        None => false,
    }
}

/// The value part of a `key: value` line (empty when the line has no colon).
pub open spec fn value_of(line: Seq<char>) -> Seq<char> {
    match key_value(line) {
        Some((_, v)) => v,
        None => Seq::empty(),
    }
}

/// The value of the last line of `block` that sets `key` to a non-empty value.
pub open spec fn last_value(block: Seq<Seq<char>>, key: Seq<char>) -> Option<Seq<char>>
    decreases block.len(),
{
    if block.len() == 0 {
        None
    } else if sets(block.last(), key) {
        Some(value_of(block.last()))
    } else {
        last_value(block.drop_last(), key)
    }
}

/// The memory type that the last non-empty `type` line of `block` names.
pub open spec fn block_type(block: Seq<Seq<char>>) -> Option<MemoryType> {
    match last_value(block, "type"@) {
        Some(v) => match parse_type(v) {
            Ok(t) => Some(t),
            Err(_) => None,
        },
        None => None,
    }
}

/// The frontmatter that the lines between the delimiters describe: present
/// when name, description and a valid type are all given.
pub open spec fn block_fields(block: Seq<Seq<char>>) -> Option<FrontmatterModel> {
    let name = last_value(block, "name"@);
    let description = last_value(block, "description"@);
    let memory_type = block_type(block);
    if name is Some && description is Some && memory_type is Some {
        Some(
            FrontmatterModel {
                name: name->0,
                description: description->0,
                memory_type: memory_type->0,
                scope: last_value(block, "scope"@),
            },
        )
    } else {
        None
    }
}

/// The frontmatter of a file's content, as `parse_frontmatter` reads it.
pub open spec fn frontmatter_of(content: Seq<char>) -> Option<FrontmatterModel> {
    let ls = lines(content);
    match block_end(ls) {
        Some(c) => block_fields(ls.subrange(1, c)),
        None => None,
    }
}

/// The 1-based number of the line where the body starts: the line just after
/// the closing delimiter.
pub open spec fn body_start(content: Seq<char>) -> Option<int> {
    match block_end(lines(content)) {
        Some(c) => Some(c + 2),
        None => None,
    }
}

pub proof fn lemma_first_fence(ls: Seq<Seq<char>>, k: int)
    requires
        0 <= k <= ls.len(),
        forall|j: int| 0 <= j < k ==> !is_fence(#[trigger] ls[j]),
    ensures
        k < ls.len() && is_fence(ls[k]) ==> first_fence(ls) == Some(k),
        k == ls.len() ==> first_fence(ls) is None,
    decreases k,
{
    if k > 0 {
        assert forall|j: int| 0 <= j < k - 1 implies !is_fence(#[trigger] ls.drop_first()[j]) by {
            assert(ls.drop_first()[j] == ls[j + 1]);
        }
        lemma_first_fence(ls.drop_first(), k - 1);
    }
}

/// The four field names differ from one another.
pub proof fn lemma_field_keys_distinct()
    ensures
        "name"@ != "description"@,
        "name"@ != "type"@,
        "name"@ != "scope"@,
        "description"@ != "type"@,
        "description"@ != "scope"@,
        "type"@ != "scope"@,
{
    reveal_strlit("name");
    reveal_strlit("description");
    reveal_strlit("type");
    reveal_strlit("scope");
    assert("name"@.len() == 4);
    assert("description"@.len() == 11);
    assert("scope"@.len() == 5);
    assert("type"@.len() == 4);
    assert("name"@[0] != "type"@[0]);
}

/// Whether a line is a delimiter line.
pub fn is_fence_line(line: &Vec<char>) -> (r: bool)
    ensures
        r == is_fence(line@),
{
    chars_eq(&trim_chars(line), &chars_of("---"))
}

/// The index of the closing delimiter (see `block_end`).
pub fn find_block_end(ls: &Vec<Vec<char>>) -> (r: Option<usize>)
    ensures
        match r {
            Some(c) => block_end(ls.deep_view()) == Some(c as int),
            None => block_end(ls.deep_view()) is None,
        },
        r matches Some(c) ==> 1 <= c < ls@.len(),
{
    let ghost lv = ls.deep_view();
    if ls.len() == 0 {
        return None;
    }
    assert(lv[0] == ls@[0]@);
    if !is_fence_line(&ls[0]) {
        return None;
    }
    let n = ls.len();
    let mut k: usize = 1;
    while k < n && !is_fence_line(&ls[k])
        invariant
            1 <= k <= n,
            n == ls@.len(),
            lv == ls.deep_view(),
            forall|j: int| 1 <= j < k ==> !is_fence(#[trigger] lv[j]),
        decreases n - k,
    {
        assert(lv[k as int] == ls@[k as int]@);
        k = k + 1;
    }
    proof {
        let rest = lv.drop_first();
        assert forall|j: int| 0 <= j < k - 1 implies !is_fence(#[trigger] rest[j]) by {
            assert(rest[j] == lv[j + 1]);
        }
        if k < n {
            assert(lv[k as int] == ls@[k as int]@);
            assert(rest[k - 1] == lv[k as int]);
        }
        lemma_first_fence(rest, k - 1);
    }
    if k == n {
        None
    } else {
        Some(k)
    }
}

/// A line split into trimmed key and value (see `key_value`).
pub fn key_value_of(line: &Vec<char>) -> (r: Option<(Vec<char>, Vec<char>)>)
    ensures
        match r {
            Some((k, v)) => key_value(line@) == Some((k@, v@)),
            None => key_value(line@) is None,
        },
{
    match split_once_chars(line, ':') {
        Some((k, v)) => Some((trim_chars(&k), trim_chars(&v))),
        None => None,
    }
}

/// The characters of an optional vector of characters.
pub open spec fn opt_vec_chars(o: Option<Vec<char>>) -> Option<Seq<char>> {
    match o {
        Some(v) => Some(v@),
        None => None,
    }
}

/// The frontmatter described by the lines `ls[1..end]`.
fn fields_from_lines(ls: &Vec<Vec<char>>, end: usize) -> (r: Option<MemoryFrontmatter>)
    requires
        1 <= end <= ls@.len(),
    ensures
        opt_frontmatter(r) == block_fields(ls.deep_view().subrange(1, end as int)),
{
    let ghost lv = ls.deep_view();
    let name_key = chars_of("name");
    let description_key = chars_of("description");
    let type_key = chars_of("type");
    let scope_key = chars_of("scope");
    let mut name: Option<Vec<char>> = None;
    let mut description: Option<Vec<char>> = None;
    let mut memory_type: Option<MemoryType> = None;
    let mut scope: Option<Vec<char>> = None;
    let mut i: usize = 1;
    while i < end
        invariant
            1 <= i <= end <= ls@.len(),
            lv == ls.deep_view(),
            name_key@ == "name"@,
            description_key@ == "description"@,
            type_key@ == "type"@,
            scope_key@ == "scope"@,
            opt_vec_chars(name) == last_value(lv.subrange(1, i as int), "name"@),
            opt_vec_chars(description) == last_value(lv.subrange(1, i as int), "description"@),
            memory_type == block_type(lv.subrange(1, i as int)),
            opt_vec_chars(scope) == last_value(lv.subrange(1, i as int), "scope"@),
        decreases end - i,
    {
        let ghost prev = lv.subrange(1, i as int);
        let ghost next = lv.subrange(1, i + 1);
        assert(next.drop_last() =~= prev);
        assert(next.last() == ls@[i as int]@);
        proof {
            lemma_field_keys_distinct();
        }
        match key_value_of(&ls[i]) {
            Some((key, value)) => {
                if value.len() > 0 {
                    if chars_eq(&key, &name_key) {
                        name = Some(value);
                    } else if chars_eq(&key, &description_key) {
                        description = Some(value);
                    } else if chars_eq(&key, &type_key) {
                        let parsed = MemoryType::from_str(string_of(&value).as_str());
                        memory_type = match parsed {
                            Ok(t) => Some(t),
                            Err(_) => None,
                        };
                    } else if chars_eq(&key, &scope_key) {
                        scope = Some(value);
                    }
                }
            },
            None => {},
        }
        i = i + 1;
    }
    if name.is_some() && description.is_some() && memory_type.is_some() {
        let fm = MemoryFrontmatter {
            name: string_of(&name.unwrap()),
            description: string_of(&description.unwrap()),
            memory_type: memory_type.unwrap(),
            scope: match scope {
                Some(s) => Some(string_of(&s)),
                None => None,
            },
        };
        Some(fm)
    } else {
        None
    }
}

/// Whether the lines `ls[1..end]` describe a complete frontmatter.
pub(crate) fn fields_present(ls: &Vec<Vec<char>>, end: usize) -> (r: bool)
    requires
        1 <= end <= ls@.len(),
    ensures
        r == block_fields(ls.deep_view().subrange(1, end as int)) is Some,
{
    fields_from_lines(ls, end).is_some()
}

/// Parse YAML frontmatter from memory file content.
///
/// Expects content starting with `---`, key-value pairs, and closing `---`.
/// Returns `None` if no valid frontmatter block is found.
pub fn parse_frontmatter(content: &str) -> (r: Option<MemoryFrontmatter>)
    ensures
        opt_frontmatter(r) == frontmatter_of(content@),
{
    let ls = split_lines(&chars_of(content));
    match find_block_end(&ls) {
        Some(end) => fields_from_lines(&ls, end),
        None => None,
    }
}

/// Return the line number (1-based) where the body starts (after closing `---`).
pub fn body_start_line(content: &str) -> (r: Option<usize>)
    ensures
        match r {
            Some(b) => body_start(content@) == Some(b as int),
            None => body_start(content@) is None,
        },
{
    let chars = chars_of(content);
    let ls = split_lines(&chars);
    match find_block_end(&ls) {
        Some(end) => {
            proof {
                let lv = ls.deep_view();
                assert(chars@.len() == chars.len());
                lemma_lines_len(content@);
                lemma_trim_len(lv[0]);
                reveal_strlit("---");
                assert("---"@.len() == 3);
            }
            Some(end + 2)
        },
        None => None,
    }
}

} // verus!
