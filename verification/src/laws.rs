//! Properties of the library as a whole, stated over the specifications that
//! the functions' contracts use, and proved.

use vstd::prelude::*;

use crate::compose::{
    collapse, collapse_acc, file_name, is_alnum, memory_text, non_underscores, slug_char, slugify,
    trim_underscores_end, well_separated,
};
use crate::frontmatter::{
    block_end, block_fields, block_type, body_start, frontmatter_of, is_fence, key_value,
    last_value, lemma_field_keys_distinct, lemma_first_fence, sets, FrontmatterModel,
};
use crate::listing::{listing_line, pad_right, text_lt};
use crate::memory_type::{classify, kind_word, lower_text, parse_type, MemoryType};
use crate::text::{
    ascii_lower, ascii_lower_text, is_ascii_text, is_blank, is_ws, lemma_first_index, lemma_lines_acc_append, lemma_lines_acc_line,
    lemma_lines_append, lemma_lines_blank, lemma_trim_drop_first, lemma_trim_drop_last,
    lemma_trim_end_prefix, lemma_trim_fixed, lemma_trim_idempotent, lines, lines_acc, strip_cr,
    trim, trim_start,
};
use crate::validate::{
    bad_type, blank_from, field_issues, issue, issues_of, msg_empty_body, msg_invalid_type,
    msg_missing_field, msg_missing_frontmatter, msg_unclosed, path_warnings, some_valid_type,
    IssueModel,
};

verus! {

proof fn lemma_kind_words()
    ensures
        "user"@ == seq!['u', 's', 'e', 'r'],
        "feedback"@ == seq!['f', 'e', 'e', 'd', 'b', 'a', 'c', 'k'],
        "project"@ == seq!['p', 'r', 'o', 'j', 'e', 'c', 't'],
        "reference"@ == seq!['r', 'e', 'f', 'e', 'r', 'e', 'n', 'c', 'e'],
{
    reveal_strlit("user");
    reveal_strlit("feedback");
    reveal_strlit("project");
    reveal_strlit("reference");
    assert("user"@ =~= seq!['u', 's', 'e', 'r']);
    assert("feedback"@ =~= seq!['f', 'e', 'e', 'd', 'b', 'a', 'c', 'k']);
    assert("project"@ =~= seq!['p', 'r', 'o', 'j', 'e', 'c', 't']);
    assert("reference"@ =~= seq!['r', 'e', 'f', 'e', 'r', 'e', 'n', 'c', 'e']);
}

/// The name of every memory type is classified as that type, so distinct
/// types have distinct names.
pub proof fn law_type_word_classifies(t: MemoryType)
    ensures
        classify(kind_word(t)) == Ok::<MemoryType, Seq<char>>(t),
{
    lemma_kind_words();
    assert("user"@ != "feedback"@);
    assert("user"@ != "project"@);
    assert("user"@ != "reference"@);
    assert("feedback"@ != "project"@);
    assert("feedback"@ != "reference"@);
    assert("project"@ != "reference"@);
}

/// Parsing a memory type ignores whitespace around the word.
pub proof fn law_parse_type_ignores_padding(s: Seq<char>)
    ensures
        parse_type(s) == parse_type(trim(s)),
{
    lemma_trim_idempotent(s);
}

/// Lowercasing leaves a type's (lowercase, ASCII) name as it is.
proof fn lemma_kind_word_lower(t: MemoryType)
    ensures
        is_ascii_text(kind_word(t)),
        lower_text(kind_word(t)) == kind_word(t),
{
    lemma_kind_words();
    let w = kind_word(t);
    assert(ascii_lower_text(w) =~= w);
}

/// Lowercasing the empty text gives the empty text.
proof fn lemma_lower_empty()
    ensures
        lower_text(Seq::empty()) == Seq::<char>::empty(),
{
    assert(ascii_lower_text(Seq::<char>::empty()) =~= Seq::<char>::empty());
}

/// A memory type's name parses back to the type.
pub proof fn law_type_word_parses(t: MemoryType)
    ensures
        parse_type(kind_word(t)) == Ok::<MemoryType, Seq<char>>(t),
{
    lemma_kind_words();
    crate::text::lemma_trim_fixed(kind_word(t));
    lemma_kind_word_lower(t);
    law_type_word_classifies(t);
}

/// Parsing a memory type ignores ASCII letter case: an ASCII word whose ASCII
/// lowercase is a type's name (such as `FEEDBACK` or `Project`), with any
/// whitespace around it, parses as that type.
pub proof fn law_parse_type_ignores_ascii_case(s: Seq<char>, t: MemoryType)
    requires
        is_ascii_text(trim(s)),
        ascii_lower_text(trim(s)) == kind_word(t),
    ensures
        parse_type(s) == Ok::<MemoryType, Seq<char>>(t),
{
    law_type_word_classifies(t);
}

proof fn lemma_collapse_acc(s: Seq<char>)
    ensures
        ({
            let (out, prev) = collapse_acc(s);
            &&& out.len() > 0 ==> out[0] != '_'
            &&& forall|i: int| 0 <= i < out.len() - 1 ==> !(#[trigger] out[i] == '_' && out[i + 1] == '_')
            &&& prev == (out.len() == 0 || out.last() == '_')
            &&& non_underscores(out) == non_underscores(s)
        }),
    decreases s.len(),
{
    if s.len() > 0 {
        lemma_collapse_acc(s.drop_last());
        let (out, prev) = collapse_acc(s.drop_last());
        let x = s.last();
        if x == '_' {
            if !prev {
                let o2 = out.push('_');
                assert(o2.drop_last() =~= out);
                assert forall|i: int| 0 <= i < o2.len() - 1 implies !(#[trigger] o2[i] == '_' && o2[i + 1] == '_') by {
                    if i < out.len() - 1 {
                        assert(o2[i] == out[i] && o2[i + 1] == out[i + 1]);
                    }
                }
            }
        } else {
            let o2 = out.push(x);
            assert(o2.drop_last() =~= out);
            assert forall|i: int| 0 <= i < o2.len() - 1 implies !(#[trigger] o2[i] == '_' && o2[i + 1] == '_') by {
                if i < out.len() - 1 {
                    assert(o2[i] == out[i] && o2[i + 1] == out[i + 1]);
                }
            }
        }
    }
}

proof fn lemma_trim_underscores_end(s: Seq<char>)
    ensures
        trim_underscores_end(s) == s.take(trim_underscores_end(s).len() as int),
        trim_underscores_end(s).len() <= s.len(),
        trim_underscores_end(s).len() > 0 ==> trim_underscores_end(s).last() != '_',
        non_underscores(trim_underscores_end(s)) == non_underscores(s),
    decreases s.len(),
{
    if s.len() > 0 && s.last() == '_' {
        lemma_trim_underscores_end(s.drop_last());
        assert(s.drop_last().take(trim_underscores_end(s).len() as int) =~= s.take(
            trim_underscores_end(s).len() as int,
        ));
    } else {
        assert(s.take(s.len() as int) =~= s);
    }
}

/// A collapsed slug never starts or ends with an underscore and never holds
/// two in a row, and it keeps every other character of the slug, in order.
pub proof fn law_collapse_shape(s: Seq<char>)
    ensures
        well_separated(collapse(s)),
        non_underscores(collapse(s)) == non_underscores(s),
{
    lemma_collapse_acc(s);
    let out = collapse_acc(s).0;
    lemma_trim_underscores_end(out);
    let r = collapse(s);
    assert forall|i: int| 0 <= i < r.len() - 1 implies !(#[trigger] r[i] == '_' && r[i + 1] == '_') by {
        assert(r[i] == out[i] && r[i + 1] == out[i + 1]);
    }
    if r.len() > 0 {
        assert(r[0] == out[0]);
    }
}

proof fn lemma_collapse_acc_separated(s: Seq<char>)
    requires
        s.len() > 0 ==> s[0] != '_',
        forall|i: int| 0 <= i < s.len() - 1 ==> !(#[trigger] s[i] == '_' && s[i + 1] == '_'),
    ensures
        collapse_acc(s) == (s, s.len() == 0 || s.last() == '_'),
    decreases s.len(),
{
    if s.len() > 0 {
        let t = s.drop_last();
        assert forall|i: int| 0 <= i < t.len() - 1 implies !(#[trigger] t[i] == '_' && t[i + 1] == '_') by {
            assert(t[i] == s[i] && t[i + 1] == s[i + 1]);
        }
        if t.len() > 0 {
            assert(t[0] == s[0]);
        }
        lemma_collapse_acc_separated(t);
        if s.last() == '_' && t.len() > 0 {
            assert(s[s.len() - 2] == t.last());
        }
        assert(t.push(s.last()) =~= s);
    }
}

/// A well-separated slug is left as it is by collapsing; in particular
/// collapsing twice is collapsing once.
pub proof fn law_collapse_fixed(s: Seq<char>)
    ensures
        well_separated(s) ==> collapse(s) == s,
        collapse(collapse(s)) == collapse(s),
{
    if well_separated(s) {
        lemma_collapse_acc_separated(s);
    }
    law_collapse_shape(s);
    lemma_collapse_acc_separated(collapse(s));
}

proof fn lemma_collapse_acc_chars(s: Seq<char>)
    ensures
        forall|i: int| 0 <= i < collapse_acc(s).0.len() ==> s.contains(#[trigger] collapse_acc(s).0[i]),
    decreases s.len(),
{
    if s.len() > 0 {
        let t = s.drop_last();
        lemma_collapse_acc_chars(t);
        let out = collapse_acc(t).0;
        let o2 = collapse_acc(s).0;
        assert forall|i: int| 0 <= i < o2.len() implies s.contains(#[trigger] o2[i]) by {
            if i < out.len() {
                assert(o2[i] == out[i]);
                let k = choose|k: int| 0 <= k < t.len() && t[k] == out[i];
                assert(s[k] == t[k]);
            } else {
                assert(o2[i] == s.last());
                assert(s[s.len() - 1] == s.last());
            }
        }
    }
}

/// Every character of a collapsed slug is a character of the slug.
proof fn lemma_collapse_chars(s: Seq<char>)
    ensures
        forall|i: int| 0 <= i < collapse(s).len() ==> s.contains(#[trigger] collapse(s)[i]),
{
    lemma_collapse_acc_chars(s);
    lemma_trim_underscores_end(collapse_acc(s).0);
    let out = collapse_acc(s).0;
    assert forall|i: int| 0 <= i < collapse(s).len() implies s.contains(#[trigger] collapse(s)[i]) by {
        assert(collapse(s)[i] == out[i]);
    }
}

/// ASCII-lowercasing an alphanumeric character keeps it alphanumeric.
proof fn lemma_ascii_lower_keeps_alnum(c: char)
    requires
        is_alnum(c),
    ensures
        is_alnum(ascii_lower(c)),
{
}

/// ASCII lowercasing twice is lowercasing once.
proof fn lemma_ascii_lower_idempotent(c: char)
    ensures
        ascii_lower(ascii_lower(c)) == ascii_lower(c),
{
}

/// Slugifying the slug part of a generated file name changes nothing, so
/// generating a file name from it gives the same file name.
pub proof fn law_slug_stable(name: Seq<char>, memory_type: MemoryType)
    ensures
        slugify(collapse(slugify(name))) == collapse(slugify(name)),
        file_name(memory_type, collapse(slugify(name))) == file_name(memory_type, slugify(name)),
{
    let s = slugify(name);
    let slug = collapse(s);
    lemma_collapse_chars(s);
    assert forall|i: int| 0 <= i < slug.len() implies #[trigger] slug_char(slug[i]) == slug[i] by {
        let k = choose|k: int| 0 <= k < s.len() && s[k] == slug[i];
        let c = name[k];
        assert(s[k] == slug_char(c));
        if is_alnum(c) {
            lemma_ascii_lower_idempotent(c);
            lemma_ascii_lower_keeps_alnum(c);
        }
    }
    assert(slugify(slug) =~= slug);
    law_collapse_fixed(s);
}

/// Whether `s` holds no line break.
pub open spec fn single_line(s: Seq<char>) -> bool {
    forall|i: int| 0 <= i < s.len() ==> s[i] != '\n'
}

/// The scope that reading back a written scope gives: the trimmed scope, when
/// it is not blank.
pub open spec fn read_scope(scope: Option<Seq<char>>) -> Option<Seq<char>> {
    match scope {
        Some(s) => if trim(s).len() > 0 {
            Some(trim(s))
        } else {
            None
        },
        None => None,
    }
}

/// The frontmatter that reading back a written memory gives: the trimmed name
/// and description (both must be non-blank), the type, and the read scope.
pub open spec fn read_back(
    name: Seq<char>,
    description: Seq<char>,
    memory_type: MemoryType,
    scope: Option<Seq<char>>,
) -> Option<FrontmatterModel> {
    if trim(name).len() > 0 && trim(description).len() > 0 {
        Some(
            FrontmatterModel {
                name: trim(name),
                description: trim(description),
                memory_type,
                scope: read_scope(scope),
            },
        )
    } else {
        None
    }
}

/// A `<key>: <x>` line (its carriage return, if it ends with one, removed)
/// splits into the key and the trimmed `x`.
proof fn lemma_field_line(key: Seq<char>, x: Seq<char>)
    requires
        key.len() > 0,
        !is_ws(key[0]),
        !is_ws(key.last()),
        forall|i: int| 0 <= i < key.len() ==> key[i] != ':',
    ensures
        key_value(strip_cr(key + seq![':', ' '] + x)) == Some((key, trim(x))),
        strip_cr(key + seq![':', ' '] + x)[0] == key[0],
        strip_cr(key + seq![':', ' '] + x).len() > 0,
{
    let k = key + seq![':', ' '];
    let x2 = strip_cr(x);
    let line = strip_cr(k + x);
    if x.len() > 0 && x.last() == '\r' {
        assert((k + x).drop_last() =~= k + x.drop_last());
        lemma_trim_drop_last(x);
    } else {
        assert(k + x == k + x2);
    }
    assert(line =~= k + x2);
    assert forall|j: int| 0 <= j < key.len() implies line[j] != ':' by {
        assert(line[j] == key[j]);
    }
    lemma_first_index(line, ':', key.len() as int);
    assert(line.take(key.len() as int) =~= key);
    assert(line.skip(key.len() as int + 1) =~= seq![' '] + x2);
    assert((seq![' '] + x2).drop_first() =~= x2);
    lemma_trim_drop_first(seq![' '] + x2);
    lemma_trim_fixed(key);
    assert(line[0] == key[0]);
}

/// A line that starts with a letter is no delimiter.
proof fn lemma_letter_line_not_fence(line: Seq<char>)
    requires
        line.len() > 0,
        !is_ws(line[0]),
        line[0] != '-',
    ensures
        !is_fence(line),
{
    reveal_strlit("---");
    lemma_trim_end_prefix(trim_start(line));
    if trim(line).len() > 0 {
        assert(trim(line)[0] == line[0]);
    }
    assert("---"@[0] == '-');
}

/// Whether `line` is a `key: value` line for a key other than `key`.
pub open spec fn other_key(line: Seq<char>, key: Seq<char>) -> bool {
    match key_value(line) {
        Some((k, _)) => k != key,
        None => false,
    }
}

/// When exactly one line of `block` has `key` (every line has a key), the last
/// value of `key` is that line's value, if it is not empty.
proof fn lemma_last_value_unique(block: Seq<Seq<char>>, key: Seq<char>, j: int, v: Seq<char>)
    requires
        0 <= j < block.len(),
        key_value(block[j]) == Some((key, v)),
        forall|i: int|
            0 <= i < block.len() && i != j ==> other_key(#[trigger] block[i], key),
    ensures
        last_value(block, key) == (if v.len() > 0 {
            Some(v)
        } else {
            None::<Seq<char>>
        }),
    decreases block.len(),
{
    let last = block.len() - 1;
    if j < last {
        assert(!sets(block.last(), key));
        lemma_last_value_unique(block.drop_last(), key, j, v);
    } else if v.len() == 0 {
        assert(!sets(block.last(), key));
        lemma_last_value_none(block.drop_last(), key);
    }
}

proof fn lemma_last_value_none(block: Seq<Seq<char>>, key: Seq<char>)
    requires
        forall|i: int|
            0 <= i < block.len() ==> other_key(#[trigger] block[i], key),
    ensures
        last_value(block, key) is None,
    decreases block.len(),
{
    if block.len() > 0 {
        assert(!sets(block.last(), key));
        lemma_last_value_none(block.drop_last(), key);
    }
}

proof fn lemma_literals()
    ensures
        "---\n"@ == seq!['-', '-', '-', '\n'],
        "\n"@ == seq!['\n'],
        "---"@ == seq!['-', '-', '-'],
        ": "@ == seq![':', ' '],
        "name"@ == seq!['n', 'a', 'm', 'e'],
        "description"@ == seq!['d', 'e', 's', 'c', 'r', 'i', 'p', 't', 'i', 'o', 'n'],
        "type"@ == seq!['t', 'y', 'p', 'e'],
        "scope"@ == seq!['s', 'c', 'o', 'p', 'e'],
{
    reveal_strlit("---\n");
    reveal_strlit("\n");
    reveal_strlit("---");
    reveal_strlit(": ");
    reveal_strlit("name");
    reveal_strlit("description");
    reveal_strlit("type");
    reveal_strlit("scope");
    assert("---\n"@ =~= seq!['-', '-', '-', '\n']);
    assert("\n"@ =~= seq!['\n']);
    assert("---"@ =~= seq!['-', '-', '-']);
    assert("name"@ =~= seq!['n', 'a', 'm', 'e']);
    assert("description"@ =~= seq!['d', 'e', 's', 'c', 'r', 'i', 'p', 't', 'i', 'o', 'n']);
    assert("type"@ =~= seq!['t', 'y', 'p', 'e']);
    assert("scope"@ =~= seq!['s', 'c', 'o', 'p', 'e']);
    assert(": "@ =~= seq![':', ' ']);
}

/// The key `<key>` of a field line is a plain word: non-empty, with no colon
/// and no whitespace at either end.
proof fn lemma_key_word(key: Seq<char>)
    requires
        key == "name"@ || key == "description"@ || key == "type"@ || key == "scope"@,
    ensures
        key.len() > 0,
        !is_ws(key[0]),
        !is_ws(key.last()),
        key[0] != '-',
        forall|i: int| 0 <= i < key.len() ==> key[i] != ':' && key[i] != '\n',
{
    lemma_literals();
}

/// One field line of a written memory: `<key>: <x>` and a line break.
pub open spec fn field_segment(key: Seq<char>, x: Seq<char>) -> Seq<char> {
    key + seq![':', ' '] + x + seq!['\n']
}

/// A field line of a written memory reads as one line with that key and the
/// trimmed value, and is no delimiter.
proof fn lemma_field_segment(key: Seq<char>, x: Seq<char>)
    requires
        key == "name"@ || key == "description"@ || key == "type"@ || key == "scope"@,
        single_line(x),
    ensures
        lines_acc(field_segment(key, x)) == (
            seq![strip_cr(key + seq![':', ' '] + x)],
            Seq::<char>::empty(),
        ),
        key_value(strip_cr(key + seq![':', ' '] + x)) == Some((key, trim(x))),
        !is_fence(strip_cr(key + seq![':', ' '] + x)),
{
    lemma_key_word(key);
    let body = key + seq![':', ' '] + x;
    assert forall|i: int| 0 <= i < body.len() implies body[i] != '\n' by {
        if i < key.len() {
            assert(body[i] == key[i]);
        } else if i < key.len() + 2 {
            assert(body[i] == seq![':', ' '][i - key.len()]);
        } else {
            assert(body[i] == x[i - key.len() - 2]);
        }
    }
    lemma_lines_acc_line(body);
    lemma_field_line(key, x);
    lemma_letter_line_not_fence(strip_cr(body));
}

/// Writing a memory and reading its frontmatter back gives the trimmed name,
/// description and scope and the type, provided that name, description and
/// scope are single lines.
pub proof fn law_format_then_parse(
    name: Seq<char>,
    description: Seq<char>,
    memory_type: MemoryType,
    scope: Option<Seq<char>>,
    body: Seq<char>,
)
    requires
        single_line(name),
        single_line(description),
        scope matches Some(s) ==> single_line(s),
    ensures
        frontmatter_of(memory_text(name, description, memory_type, scope, body)) == read_back(
            name,
            description,
            memory_type,
            scope,
        ),
{
    let text = memory_text(name, description, memory_type, scope, body);
    let layout = written_layout(name, description, memory_type, scope, body);
    lemma_written_layout(name, description, memory_type, scope, body);
    let ls = lines(text);
    let head = layout.0;
    let c = layout.1;
    assert(block_end(ls) == Some(c));
    let block = ls.subrange(1, c);
    lemma_literals();
    lemma_field_keys_distinct();
    lemma_kind_nonempty(memory_type);
    lemma_field_segment("name"@, name);
    lemma_field_segment("description"@, description);
    lemma_field_segment("type"@, kind_word(memory_type));
    lemma_trim_fixed(kind_word(memory_type));
    law_type_word_classifies(memory_type);
    lemma_kind_word_lower(memory_type);
    assert(block[0] == head[1]);
    assert(block[1] == head[2]);
    assert(block[2] == head[3]);
    match scope {
        Some(s) => {
            lemma_field_segment("scope"@, s);
            assert(block.len() == 4);
            assert(block[3] == head[4]);
            assert forall|i: int| 0 <= i < block.len() && i != 0 implies other_key(#[trigger] block[i], "name"@) by {}
            assert forall|i: int| 0 <= i < block.len() && i != 1 implies other_key(#[trigger] block[i], "description"@) by {}
            assert forall|i: int| 0 <= i < block.len() && i != 2 implies other_key(#[trigger] block[i], "type"@) by {}
            assert forall|i: int| 0 <= i < block.len() && i != 3 implies other_key(#[trigger] block[i], "scope"@) by {}
            lemma_last_value_unique(block, "name"@, 0, trim(name));
            lemma_last_value_unique(block, "description"@, 1, trim(description));
            lemma_last_value_unique(block, "type"@, 2, kind_word(memory_type));
            lemma_last_value_unique(block, "scope"@, 3, trim(s));
        },
        None => {
            assert(block.len() == 3);
            assert forall|i: int| 0 <= i < block.len() && i != 0 implies other_key(#[trigger] block[i], "name"@) by {}
            assert forall|i: int| 0 <= i < block.len() && i != 1 implies other_key(#[trigger] block[i], "description"@) by {}
            assert forall|i: int| 0 <= i < block.len() && i != 2 implies other_key(#[trigger] block[i], "type"@) by {}
            assert forall|i: int| 0 <= i < block.len() implies other_key(#[trigger] block[i], "scope"@) by {}
            lemma_last_value_unique(block, "name"@, 0, trim(name));
            lemma_last_value_unique(block, "description"@, 1, trim(description));
            lemma_last_value_unique(block, "type"@, 2, kind_word(memory_type));
            lemma_last_value_none(block, "scope"@);
        },
    }
    assert(block_type(block) == Some(memory_type));
}

proof fn lemma_kind_nonempty(t: MemoryType)
    ensures
        single_line(kind_word(t)),
        kind_word(t).len() > 0,
        !is_ws(kind_word(t)[0]),
        !is_ws(kind_word(t).last()),
{
    lemma_kind_words();
}

/// The lines that start a written memory (the delimiters and the field lines)
/// and the index of the closing delimiter among the text's lines.
pub open spec fn written_layout(
    name: Seq<char>,
    description: Seq<char>,
    memory_type: MemoryType,
    scope: Option<Seq<char>>,
    body: Seq<char>,
) -> (Seq<Seq<char>>, int) {
    let fence = seq!['-', '-', '-'];
    let fields = seq![
        strip_cr("name"@ + seq![':', ' '] + name),
        strip_cr("description"@ + seq![':', ' '] + description),
        strip_cr("type"@ + seq![':', ' '] + kind_word(memory_type)),
    ];
    let fields = match scope {
        Some(s) => fields.push(strip_cr("scope"@ + seq![':', ' '] + s)),
        None => fields,
    };
    (seq![fence] + fields + seq![fence], fields.len() as int + 1)
}

/// The rest of a written memory after its frontmatter: an empty line, the
/// body, and a final line break if the body lacks one.
pub open spec fn written_rest(body: Seq<char>) -> Seq<char> {
    let ending = if body.len() > 0 && body.last() == '\n' {
        Seq::empty()
    } else {
        seq!['\n']
    };
    seq!['\n'] + body + ending
}

/// The lines of a written memory are its frontmatter lines followed by the
/// lines of the rest, and the frontmatter closes where the layout says.
proof fn lemma_written_layout(
    name: Seq<char>,
    description: Seq<char>,
    memory_type: MemoryType,
    scope: Option<Seq<char>>,
    body: Seq<char>,
)
    requires
        single_line(name),
        single_line(description),
        scope matches Some(s) ==> single_line(s),
    ensures
        lines(memory_text(name, description, memory_type, scope, body)) == written_layout(
            name,
            description,
            memory_type,
            scope,
            body,
        ).0 + lines(written_rest(body)),
        block_end(lines(memory_text(name, description, memory_type, scope, body))) == Some(
            written_layout(name, description, memory_type, scope, body).1,
        ),
{
    lemma_literals();
    lemma_kind_words();
    let nl = seq!['\n'];
    let fence = seq!['-', '-', '-'];
    let kw = kind_word(memory_type);
    assert(single_line(kw));
    let seg0 = fence + nl;
    let seg1 = field_segment("name"@, name);
    let seg2 = field_segment("description"@, description);
    let seg3 = field_segment("type"@, kw);
    let segs = match scope {
        Some(s) => field_segment("scope"@, s),
        None => Seq::empty(),
    };
    let head = seg0 + seg1 + seg2 + seg3 + segs + seg0;
    let rest = written_rest(body);
    let text = memory_text(name, description, memory_type, scope, body);
    assert(seg0 =~= "---\n"@);
    assert(text == head + rest);
    // the lines of the head, one segment at a time
    lemma_lines_acc_line(fence);
    assert(strip_cr(fence) == fence);
    lemma_field_segment("name"@, name);
    lemma_field_segment("description"@, description);
    lemma_field_segment("type"@, kw);
    let l1 = strip_cr("name"@ + seq![':', ' '] + name);
    let l2 = strip_cr("description"@ + seq![':', ' '] + description);
    let l3 = strip_cr("type"@ + seq![':', ' '] + kw);
    lemma_lines_acc_append(seg0, seg1);
    lemma_lines_acc_append(seg0 + seg1, seg2);
    lemma_lines_acc_append(seg0 + seg1 + seg2, seg3);
    let p3 = seg0 + seg1 + seg2 + seg3;
    assert(lines_acc(p3).0 =~= seq![fence, l1, l2, l3]);
    let p4 = p3 + segs;
    match scope {
        Some(s) => {
            lemma_field_segment("scope"@, s);
            lemma_lines_acc_append(p3, segs);
            assert(lines_acc(p4).0 =~= seq![fence, l1, l2, l3, strip_cr(
                "scope"@ + seq![':', ' '] + s,
            )]);
        },
        None => {
            assert(p4 =~= p3);
        },
    }
    lemma_lines_acc_append(p4, seg0);
    assert(p4 + seg0 == head);
    let (hl, c) = written_layout(name, description, memory_type, scope, body);
    assert(lines_acc(head).0 =~= hl);
    lemma_lines_append(head, rest);
    let ls = lines(text);
    assert(ls == hl + lines(rest));
    // the delimiters
    lemma_trim_fixed(fence);
    assert(is_fence(ls[0]));
    let tail = ls.drop_first();
    assert forall|j: int| 0 <= j < c - 1 implies !is_fence(#[trigger] tail[j]) by {
        assert(tail[j] == hl[j + 1]);
    }
    assert(tail[c - 1] == hl[c]);
    lemma_first_fence(tail, c - 1);
}

/// Whether some issue is an error (not a warning).
pub open spec fn has_error(issues: Seq<IssueModel>) -> bool {
    exists|i: int| 0 <= i < issues.len() && !(#[trigger] issues[i]).warning
}

proof fn lemma_path_warnings_are_warnings(file: Seq<char>, hits: Seq<bool>, n: nat)
    ensures
        !has_error(path_warnings(file, hits, n)),
    decreases n,
{
    if n > 0 {
        lemma_path_warnings_are_warnings(file, hits, (n - 1) as nat);
        let before = path_warnings(file, hits, (n - 1) as nat);
        let after = path_warnings(file, hits, n);
        assert forall|i: int| 0 <= i < after.len() implies (#[trigger] after[i]).warning by {
            if i < before.len() {
                assert(after[i] == before[i]);
            }
        }
    }
}

proof fn lemma_errors_then_warnings(a: Seq<IssueModel>, b: Seq<IssueModel>)
    requires
        !has_error(b),
    ensures
        has_error(a + b) <==> has_error(a),
{
    if has_error(a) {
        let i = choose|i: int| 0 <= i < a.len() && !(#[trigger] a[i]).warning;
        assert((a + b)[i] == a[i]);
    }
    if has_error(a + b) {
        let i = choose|i: int| 0 <= i < (a + b).len() && !(#[trigger] (a + b)[i]).warning;
        if i >= a.len() {
            assert((a + b)[i] == b[i - a.len()]);
        }
    }
}

/// With no empty-valued type line naming a type, a block with no invalid
/// type value and some valid one has its last type value valid.
proof fn lemma_type_found(block: Seq<Seq<char>>)
    requires
        parse_type(Seq::empty()) is Err,
        bad_type(block) is None,
        some_valid_type(block),
    ensures
        block_type(block) is Some,
    decreases block.len(),
{
    lemma_literals();
    if block.len() > 0 {
        match key_value(block.last()) {
            Some((k, v)) => {
                if k == "type"@ && v.len() > 0 {
                    assert(sets(block.last(), "type"@));
                } else {
                    assert(!sets(block.last(), "type"@));
                    if k == "type"@ {
                        assert(v =~= Seq::<char>::empty());
                    }
                    lemma_type_found(block.drop_last());
                }
            },
            None => {
                lemma_type_found(block.drop_last());
            },
        }
    }
}

/// A file is reported with an error exactly when its frontmatter cannot be
/// read or its body is blank; every other issue is a machine-local path
/// warning.
pub proof fn law_errors_iff_unreadable(file: Seq<char>, content: Seq<char>, hits: Seq<bool>)
    ensures
        frontmatter_of(content) is Some ==> body_start(content) is Some,
        has_error(issues_of(file, content, hits)) <==> (frontmatter_of(content) is None || blank_from(
            lines(content),
            body_start(content)->0 - 1,
        )),
{
    let ls = lines(content);
    let issues = issues_of(file, content, hits);
    lemma_literals();
    lemma_kind_words();
    assert(trim(Seq::<char>::empty()) == Seq::<char>::empty());
    lemma_lower_empty();
    assert(parse_type(Seq::empty()) is Err);
    if !(ls.len() > 0 && is_fence(ls[0])) {
        assert(!issues[0].warning);
    } else {
        match block_end(ls) {
            None => {
                assert(!issues[0].warning);
            },
            Some(c) => {
                let block = ls.subrange(1, c);
                if block_fields(block) is None {
                    let fi = field_issues(file, block);
                    if bad_type(block) is None && some_valid_type(block) {
                        lemma_type_found(block);
                    }
                    assert(fi.len() > 0);
                    assert forall|i: int| 0 <= i < fi.len() implies !(#[trigger] fi[i]).warning by {}
                    assert(!fi[0].warning);
                } else {
                    let body = if blank_from(ls, c + 1) {
                        seq![issue(file, (c + 2) as usize, msg_empty_body(), false)]
                    } else {
                        Seq::empty()
                    };
                    lemma_path_warnings_are_warnings(file, hits, ls.len());
                    lemma_errors_then_warnings(body, path_warnings(file, hits, ls.len()));
                    if blank_from(ls, c + 1) {
                        assert(!body[0].warning);
                    }
                }
            },
        }
    }
}

/// A written memory with a non-blank name and description (single lines,
/// like its scope) is reported with an error exactly when its body is blank;
/// any other issue is a machine-local path warning.
pub proof fn law_written_memory_validates(
    file: Seq<char>,
    name: Seq<char>,
    description: Seq<char>,
    memory_type: MemoryType,
    scope: Option<Seq<char>>,
    body: Seq<char>,
    hits: Seq<bool>,
)
    requires
        single_line(name),
        single_line(description),
        scope matches Some(s) ==> single_line(s),
        trim(name).len() > 0,
        trim(description).len() > 0,
    ensures
        has_error(issues_of(file, memory_text(name, description, memory_type, scope, body), hits))
            <==> is_blank(body),
{
    let text = memory_text(name, description, memory_type, scope, body);
    law_format_then_parse(name, description, memory_type, scope, body);
    lemma_written_layout(name, description, memory_type, scope, body);
    let (hl, c) = written_layout(name, description, memory_type, scope, body);
    let ls = lines(text);
    let rest = written_rest(body);
    let rl = lines(rest);
    assert(c + 1 == hl.len());
    lemma_lines_blank(rest);
    assert(blank_from(ls, c + 1) <==> (forall|j: int| 0 <= j < rl.len() ==> #[trigger] is_blank(rl[j]))) by {
        if blank_from(ls, c + 1) {
            assert forall|j: int| 0 <= j < rl.len() implies #[trigger] is_blank(rl[j]) by {
                assert(ls[hl.len() + j] == rl[j]);
            }
        }
        if forall|j: int| 0 <= j < rl.len() ==> #[trigger] is_blank(rl[j]) {
            assert forall|j: int| c + 1 <= j < ls.len() implies #[trigger] is_blank(ls[j]) by {
                assert(ls[j] == rl[j - hl.len()]);
            }
        }
    }
    assert(is_blank(rest) <==> is_blank(body)) by {
        let nl = seq!['\n'];
        let ending = if body.len() > 0 && body.last() == '\n' {
            Seq::<char>::empty()
        } else {
            nl
        };
        assert(rest == nl + body + ending);
        if is_blank(rest) {
            assert forall|i: int| 0 <= i < body.len() implies #[trigger] is_ws(body[i]) by {
                assert(rest[i + 1] == body[i]);
            }
        }
        if is_blank(body) {
            assert forall|i: int| 0 <= i < rest.len() implies #[trigger] is_ws(rest[i]) by {
                if i == 0 {
                } else if i < body.len() + 1 {
                    assert(rest[i] == body[i - 1]);
                } else {
                    assert(rest[i] == ending[i - 1 - body.len()]);
                }
            }
        }
    }
    let body_issue = if blank_from(ls, c + 1) {
        seq![issue(file, (c + 2) as usize, msg_empty_body(), false)]
    } else {
        Seq::empty()
    };
    lemma_path_warnings_are_warnings(file, hits, ls.len());
    lemma_errors_then_warnings(body_issue, path_warnings(file, hits, ls.len()));
    if blank_from(ls, c + 1) {
        assert(!body_issue[0].warning);
    }
}

/// Comparing two texts that share a prefix compares what follows it.
pub proof fn law_text_lt_common_prefix(p: Seq<char>, x: Seq<char>, y: Seq<char>)
    ensures
        text_lt(p + x, p + y) == text_lt(x, y),
    decreases p.len(),
{
    if p.len() == 0 {
        assert(p + x =~= x);
        assert(p + y =~= y);
    } else {
        assert((p + x)[0] == p[0]);
        assert((p + y)[0] == p[0]);
        assert((p + x).drop_first() =~= p.drop_first() + x);
        assert((p + y).drop_first() =~= p.drop_first() + y);
        law_text_lt_common_prefix(p.drop_first(), x, y);
    }
}

/// A text comes before every longer text that it begins, and never after it.
pub proof fn law_text_lt_proper_prefix(p: Seq<char>, x: Seq<char>)
    requires
        x.len() > 0,
    ensures
        text_lt(p, p + x),
        !text_lt(p + x, p),
{
    law_text_lt_common_prefix(p, Seq::empty(), x);
    law_text_lt_common_prefix(p, x, Seq::empty());
    assert(p + Seq::<char>::empty() =~= p);
}

/// Two texts are ordered by their first differing character, whatever their
/// lengths.
pub proof fn law_text_lt_first_difference(a: Seq<char>, b: Seq<char>, i: int)
    requires
        0 <= i < a.len(),
        i < b.len(),
        a.take(i) == b.take(i),
        a[i] != b[i],
    ensures
        text_lt(a, b) <==> a[i] < b[i],
        text_lt(b, a) <==> b[i] < a[i],
{
    let p = a.take(i);
    assert(a =~= p + a.skip(i));
    assert(b =~= p + b.skip(i));
    law_text_lt_common_prefix(p, a.skip(i), b.skip(i));
    law_text_lt_common_prefix(p, b.skip(i), a.skip(i));
    assert(a.skip(i)[0] == a[i]);
    assert(b.skip(i)[0] == b[i]);
}

/// Only the four type names classify as a type, each as its own type; any
/// other word is refused with an error that quotes it.
pub proof fn law_classify_exact(w: Seq<char>, t: MemoryType)
    ensures
        classify(w) == Ok::<MemoryType, Seq<char>>(t) <==> w == kind_word(t),
        classify(w) is Err <==> (forall|u: MemoryType| w != #[trigger] kind_word(u)),
        classify(w) is Err ==> classify(w) == Err::<MemoryType, Seq<char>>(
            "unknown memory type: "@ + w,
        ),
{
    law_type_word_classifies(t);
    law_type_word_classifies(MemoryType::User);
    law_type_word_classifies(MemoryType::Feedback);
    law_type_word_classifies(MemoryType::Project);
    law_type_word_classifies(MemoryType::Reference);
    if classify(w) is Err {
        assert forall|u: MemoryType| w != #[trigger] kind_word(u) by {
            law_type_word_classifies(u);
        }
    }
}

/// A memory type parses exactly from text whose trimmed lowercase is the
/// type's name.
pub proof fn law_parse_type_exact(s: Seq<char>, t: MemoryType)
    ensures
        parse_type(s) == Ok::<MemoryType, Seq<char>>(t) <==> lower_text(trim(s)) == kind_word(t),
{
    law_classify_exact(lower_text(trim(s)), t);
}

/// Padding keeps the text as it is and appends spaces up to the width, never
/// cutting it.
pub proof fn law_pad_right(s: Seq<char>, width: nat)
    ensures
        pad_right(s, width).take(s.len() as int) == s,
        pad_right(s, width).len() == if s.len() >= width {
            s.len()
        } else {
            width
        },
        forall|i: int| s.len() <= i < pad_right(s, width).len() ==> #[trigger] pad_right(s, width)[i] == ' ',
{
    if s.len() < width {
        assert(pad_right(s, width).take(s.len() as int) =~= s);
    } else {
        assert(s.take(s.len() as int) =~= s);
    }
}

proof fn lemma_listing_literals()
    ensures
        "-"@ == seq!['-'],
        " "@ == seq![' '],
        "(no frontmatter)"@.len() == 16,
{
    reveal_strlit("-");
    reveal_strlit(" ");
    reveal_strlit("(no frontmatter)");
    assert("-"@ =~= seq!['-']);
    assert(" "@ =~= seq![' ']);
}

/// The listing line of a file without frontmatter: `-` and spaces up to
/// column 13, then the whole file name (padded to 20 characters, never cut),
/// then ` (no frontmatter)`.
pub proof fn law_listing_line_without_frontmatter(f: Seq<char>)
    ensures
        ({
            let line = listing_line(None, f);
            let w = if f.len() >= 20 {
                f.len() as int
            } else {
                20
            };
            &&& line[0] == '-'
            &&& forall|i: int| 1 <= i < 13 ==> #[trigger] line[i] == ' '
            &&& line.subrange(13, 13 + f.len() as int) == f
            &&& forall|i: int| 13 + f.len() <= i < 13 + w ==> #[trigger] line[i] == ' '
            &&& line.skip(13 + w) == " "@ + "(no frontmatter)"@
        }),
{
    lemma_listing_literals();
    let dash = pad_right("-"@, 12);
    let name = pad_right(f, 20);
    law_pad_right("-"@, 12);
    law_pad_right(f, 20);
    let line = listing_line(None, f);
    assert(line == dash + " "@ + name + " "@ + "(no frontmatter)"@);
    assert(dash.len() == 12);
    let w = if f.len() >= 20 {
        f.len() as int
    } else {
        20
    };
    assert(name.len() == w);
    assert(line[0] == dash[0]);
    assert(dash.take(1) == "-"@);
    assert(dash[0] == '-');
    assert forall|i: int| 1 <= i < 13 implies #[trigger] line[i] == ' ' by {
        if i < 12 {
            assert(line[i] == dash[i]);
        } else {
            assert(line[i] == " "@[0]);
        }
    }
    assert(line.subrange(13, 13 + f.len() as int) =~= name.take(f.len() as int));
    assert forall|i: int| 13 + f.len() <= i < 13 + w implies #[trigger] line[i] == ' ' by {
        assert(line[i] == name[i - 13]);
    }
    assert(line.skip(13 + w) =~= " "@ + "(no frontmatter)"@);
}

/// The listing line of a file with frontmatter: the type's name, a space, the
/// whole name (padded to 20 characters, never cut), a space, and the scope or
/// `-`.
pub proof fn law_listing_line_with_frontmatter(m: FrontmatterModel)
    ensures
        ({
            let line = listing_line(Some(m), Seq::empty());
            let k = kind_word(m.memory_type).len() as int;
            let w = if m.name.len() >= 20 {
                m.name.len() as int
            } else {
                20
            };
            let scope = match m.scope {
                Some(s) => s,
                None => "-"@,
            };
            &&& line.take(k) == kind_word(m.memory_type)
            &&& line[k] == ' '
            &&& line.subrange(k + 1, k + 1 + m.name.len() as int) == m.name
            &&& forall|i: int| k + 1 + m.name.len() <= i < k + 1 + w ==> #[trigger] line[i] == ' '
            &&& line.skip(k + 1 + w) == " "@ + scope
        }),
{
    lemma_listing_literals();
    law_pad_right(m.name, 20);
    let line = listing_line(Some(m), Seq::empty());
    let kw = kind_word(m.memory_type);
    let name = pad_right(m.name, 20);
    let scope = match m.scope {
        Some(s) => s,
        None => "-"@,
    };
    let k = kw.len() as int;
    let w = if m.name.len() >= 20 {
        m.name.len() as int
    } else {
        20
    };
    assert(line == kw + " "@ + name + " "@ + scope);
    assert(line.take(k) =~= kw);
    assert(line[k] == " "@[0]);
    assert(line.subrange(k + 1, k + 1 + m.name.len() as int) =~= name.take(m.name.len() as int));
    assert forall|i: int| k + 1 + m.name.len() <= i < k + 1 + w implies #[trigger] line[i] == ' ' by {
        assert(line[i] == name[i - k - 1]);
    }
    assert(line.skip(k + 1 + w) =~= " "@ + scope);
}

/// The alphanumeric characters of `name`, in order, in ASCII lowercase.
pub open spec fn lowered_alphanumerics(name: Seq<char>) -> Seq<char>
    decreases name.len(),
{
    if name.len() == 0 {
        name
    } else if is_alnum(name.last()) {
        lowered_alphanumerics(name.drop_last()).push(ascii_lower(name.last()))
    } else {
        lowered_alphanumerics(name.drop_last())
    }
}

proof fn lemma_slugify_non_underscores(name: Seq<char>)
    ensures
        non_underscores(slugify(name)) == lowered_alphanumerics(name),
    decreases name.len(),
{
    if name.len() > 0 {
        let c = name.last();
        lemma_slugify_non_underscores(name.drop_last());
        assert(slugify(name).drop_last() =~= slugify(name.drop_last()));
        assert(slugify(name).last() == slug_char(c));
        if is_alnum(c) {
            lemma_ascii_lower_keeps_alnum(c);
            assert(ascii_lower(c) != '_');
        }
    } else {
        assert(slugify(name) =~= Seq::<char>::empty());
    }
}

/// The slug part of a generated file name holds only underscores and
/// alphanumeric characters in ASCII lowercase: every other character of the
/// name became an underscore. Its non-underscore characters are exactly the
/// alphanumeric characters of the name, in order and lowercased, and it
/// neither starts nor ends with an underscore nor holds two in a row.
pub proof fn law_slug_characters(name: Seq<char>)
    ensures
        forall|i: int|
            0 <= i < collapse(slugify(name)).len() ==> #[trigger] collapse(slugify(name))[i] == '_'
                || (is_alnum(collapse(slugify(name))[i]) && ascii_lower(collapse(slugify(name))[i])
                == collapse(slugify(name))[i]),
        non_underscores(collapse(slugify(name))) == lowered_alphanumerics(name),
        well_separated(collapse(slugify(name))),
{
    let s = slugify(name);
    let slug = collapse(s);
    lemma_collapse_chars(s);
    assert forall|i: int| 0 <= i < slug.len() implies #[trigger] slug[i] == '_' || (is_alnum(slug[i])
        && ascii_lower(slug[i]) == slug[i]) by {
        let k = choose|k: int| 0 <= k < s.len() && s[k] == slug[i];
        let c = name[k];
        assert(s[k] == slug_char(c));
        if is_alnum(c) {
            lemma_ascii_lower_idempotent(c);
            lemma_ascii_lower_keeps_alnum(c);
        }
    }
    law_collapse_shape(s);
    lemma_slugify_non_underscores(name);
}

proof fn lemma_message_heads(key: Seq<char>, value: Seq<char>)
    ensures
        msg_missing_frontmatter().len() > 0 && msg_missing_frontmatter()[0] == 'm',
        msg_unclosed().len() > 0 && msg_unclosed()[0] == 'u',
        msg_missing_field(key).len() > 0 && msg_missing_field(key)[0] == 'f',
        msg_invalid_type(value).len() > 0 && msg_invalid_type(value)[0] == 'i',
        msg_empty_body().len() > 0 && msg_empty_body()[0] == 'm',
{
    reveal_strlit("missing frontmatter (file must start with ---)");
    reveal_strlit("unclosed frontmatter (missing closing ---)");
    reveal_strlit("frontmatter missing required field: ");
    reveal_strlit("invalid type: ");
    reveal_strlit("memory body is empty (content required after frontmatter)");
    assert(msg_missing_field(key)[0] == "frontmatter missing required field: "@[0]);
    assert(msg_invalid_type(value)[0] == "invalid type: "@[0]);
}

/// The missing-field messages of two different keys differ when one key is
/// not a prefix of the other at the same length.
proof fn lemma_missing_field_messages_differ(a: Seq<char>, b: Seq<char>)
    requires
        a != b,
    ensures
        msg_missing_field(a) != msg_missing_field(b),
{
    let p = "frontmatter missing required field: "@;
    if msg_missing_field(a) == msg_missing_field(b) {
        assert(a =~= msg_missing_field(a).skip(p.len() as int));
        assert(b =~= msg_missing_field(b).skip(p.len() as int));
    }
}

/// A missing `name` or `description` is reported (as an error on line 1)
/// exactly when the file's frontmatter block is present and closed and has no
/// line that sets that key to a non-empty value.
pub proof fn law_missing_field_reported(
    file: Seq<char>,
    content: Seq<char>,
    hits: Seq<bool>,
    key: Seq<char>,
)
    requires
        key == "name"@ || key == "description"@,
    ensures
        issues_of(file, content, hits).contains(issue(file, 1, msg_missing_field(key), false)) <==> (
        match block_end(lines(content)) {
            Some(c) => last_value(lines(content).subrange(1, c), key) is None,
            None => false,
        }),
{
    let ls = lines(content);
    let issues = issues_of(file, content, hits);
    let target = issue(file, 1, msg_missing_field(key), false);
    lemma_message_heads(key, Seq::empty());
    lemma_field_keys_distinct();
    match block_end(ls) {
        None => {
            if issues.contains(target) {
                let k = choose|k: int| 0 <= k < issues.len() && issues[k] == target;
                assert(issues[k].message[0] != 'f');
            }
        },
        Some(c) => {
            let block = ls.subrange(1, c);
            if last_value(block, key) is None {
                assert(block_fields(block) is None);
                let fi = field_issues(file, block);
                if key == "name"@ {
                    assert(fi[0] == target);
                } else {
                    let name_part = if last_value(block, "name"@) is Some {
                        Seq::<IssueModel>::empty()
                    } else {
                        seq![issue(file, 1, msg_missing_field("name"@), false)]
                    };
                    assert(fi[name_part.len() as int] == target);
                }
            } else if issues.contains(target) {
                let k = choose|k: int| 0 <= k < issues.len() && issues[k] == target;
                if block_fields(block) is None {
                    let fi = field_issues(file, block);
                    let others = if key == "name"@ {
                        "description"@
                    } else {
                        "name"@
                    };
                    lemma_missing_field_messages_differ(key, others);
                    lemma_missing_field_messages_differ(key, "type"@);
                    lemma_message_heads(key, match bad_type(block) {
                        Some(v) => v,
                        None => Seq::empty(),
                    });
                    assert(fi[k] == target);
                } else {
                    let body = if blank_from(ls, c + 1) {
                        seq![issue(file, (c + 2) as usize, msg_empty_body(), false)]
                    } else {
                        Seq::empty()
                    };
                    let pw = path_warnings(file, hits, ls.len());
                    lemma_path_warnings_are_warnings(file, hits, ls.len());
                    assert(issues == body + pw);
                    if k < body.len() {
                        assert(issues[k] == body[k]);
                    } else {
                        assert(issues[k] == pw[k - body.len()]);
                    }
                }
            }
        },
    }
}

} // verus!
