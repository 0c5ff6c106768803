//! Composing new memory files: the file name derived from a memory's name,
//! and the file text with its frontmatter.

use vstd::prelude::*;

use crate::bindings::{alphanumeric, is_alphanumeric};
use crate::memory_type::{kind_word, MemoryType};
use crate::text::{ascii_lower, chars_of, is_ascii_alnum, string_of, to_ascii_lower};

verus! {

/// Whether `char::is_alphanumeric` holds of `c`: an ASCII letter or digit for
/// an ASCII character, the Unicode answer (named `alphanumeric`) otherwise.
pub open spec fn is_alnum(c: char) -> bool {
    if (c as u32) < 128 {
        is_ascii_alnum(c)
    } else {
        alphanumeric(c)
    }
}

/// The slug character for `c`: alphanumeric characters in ASCII lowercase,
/// every other character an underscore.
pub open spec fn slug_char(c: char) -> char {
    if is_alnum(c) {
        ascii_lower(c)
    } else {
        '_'
    }
}

/// `name` with each character replaced by its slug character.
pub open spec fn slugify(name: Seq<char>) -> Seq<char> {
    name.map_values(|c: char| slug_char(c))
}

/// Reading `s` from left to right, runs of underscores are reduced to one and
/// leading underscores dropped; the flag tells whether the last character
/// read was an underscore (true at the start).
pub open spec fn collapse_acc(s: Seq<char>) -> (Seq<char>, bool)
    decreases s.len(),
{
    if s.len() == 0 {
        (Seq::empty(), true)
    } else {
        let (out, prev_underscore) = collapse_acc(s.drop_last());
        if s.last() == '_' {
            if prev_underscore {
                (out, true)
            } else {
                (out.push('_'), true)
            }
        } else {
            (out.push(s.last()), false)
        }
    }
}

/// `s` without its trailing underscores.
pub open spec fn trim_underscores_end(s: Seq<char>) -> Seq<char>
    decreases s.len(),
{
    if s.len() > 0 && s.last() == '_' {
        trim_underscores_end(s.drop_last())
    } else {
        s
    }
}

/// `s` with underscore runs collapsed to one underscore and no underscore at
/// either end.
pub open spec fn collapse(s: Seq<char>) -> Seq<char> {
    trim_underscores_end(collapse_acc(s).0)
}

/// The file name for a memory of type `t` whose slug is `slug`.
pub open spec fn file_name(t: MemoryType, slug: Seq<char>) -> Seq<char> {
    kind_word(t) + "_"@ + collapse(slug) + ".md"@
}

/// The characters of `s` that are not underscores, in order.
pub open spec fn non_underscores(s: Seq<char>) -> Seq<char>
    decreases s.len(),
{
    if s.len() == 0 {
        s
    } else if s.last() == '_' {
        non_underscores(s.drop_last())
    } else {
        non_underscores(s.drop_last()).push(s.last())
    }
}

/// Whether `s` starts or ends with an underscore or holds two in a row.
pub open spec fn well_separated(s: Seq<char>) -> bool {
    &&& s.len() > 0 ==> s[0] != '_' && s.last() != '_'
    &&& forall|i: int| 0 <= i < s.len() - 1 ==> !(#[trigger] s[i] == '_' && s[i + 1] == '_')
}

/// Collapses `s` (see `collapse`).
fn collapse_chars(s: &Vec<char>) -> (r: Vec<char>)
    ensures
        r@ == collapse(s@),
{
    let n = s.len();
    let mut out: Vec<char> = Vec::new();
    let mut prev_underscore = true;
    for i in 0..n
        invariant
            n == s@.len(),
            (out@, prev_underscore) == collapse_acc(s@.take(i as int)),
    {
        assert(s@.take(i + 1).drop_last() =~= s@.take(i as int));
        let c = s[i];
        if c == '_' {
            if !prev_underscore {
                out.push('_');
            }
            prev_underscore = true;
        } else {
            out.push(c);
            prev_underscore = false;
        }
    }
    assert(s@.take(n as int) =~= s@);
    let ghost collapsed = out@;
    while out.len() > 0 && out[out.len() - 1] == '_'
        invariant
            trim_underscores_end(out@) == trim_underscores_end(collapsed),
        decreases out.len(),
    {
        out.pop();
    }
    out
}

fn file_name_from_chars(slug: &Vec<char>, memory_type: &MemoryType) -> (r: String)
    ensures
        r@ == file_name(*memory_type, slug@),
{
    let mut out = memory_type.to_string();
    out.append("_");
    out.append(string_of(&collapse_chars(slug)).as_str());
    out.append(".md");
    out
}

/// The file name for a memory of type `memory_type` whose name has already
/// been turned into `slug`: `<type>_<slug>.md`, with underscore runs in the
/// slug collapsed and underscores at its ends removed.
pub fn file_name_from_slug(slug: &str, memory_type: &MemoryType) -> (r: String)
    ensures
        r@ == file_name(*memory_type, slug@),
{
    file_name_from_chars(&chars_of(slug), memory_type)
}

/// Generate a filename from a memory name and type.
///
/// Replaces spaces and non-alphanumeric characters with underscores,
/// prepends the type prefix, and appends `.md`.
pub fn generate_filename(name: &str, memory_type: &MemoryType) -> (r: String)
    ensures
        r@ == file_name(*memory_type, slugify(name@)),
{
    let chars = chars_of(name);
    let n = chars.len();
    let mut slug: Vec<char> = Vec::new();
    for i in 0..n
        invariant
            n == chars@.len(),
            chars@ == name@,
            slug@ =~= slugify(name@).take(i as int),
    {
        let c = chars[i];
        let s = if is_alphanumeric(c) {
            to_ascii_lower(c)
        } else {
            '_'
        };
        slug.push(s);
        assert(slugify(name@).take(i + 1) =~= slugify(name@).take(i as int).push(s));
    }
    assert(slug@ =~= slugify(name@));
    file_name_from_chars(&slug, memory_type)
}

/// The characters of an optional string slice.
pub open spec fn opt_str_chars(o: Option<&str>) -> Option<Seq<char>> {
    match o {
        Some(s) => Some(s@),
        None => None,
    }
}

/// One frontmatter line: `<key>: <value>` and a line break.
pub open spec fn field_text(key: Seq<char>, value: Seq<char>) -> Seq<char> {
    key + ": "@ + value + "\n"@
}

/// The text of a memory file: the frontmatter block (with a `scope` line only
/// when a scope is given), an empty line, then the body, ended by a line
/// break if it does not already end with one.
pub open spec fn memory_text(
    name: Seq<char>,
    description: Seq<char>,
    memory_type: MemoryType,
    scope: Option<Seq<char>>,
    body: Seq<char>,
) -> Seq<char> {
    let scope_line = match scope {
        Some(s) => field_text("scope"@, s),
        None => Seq::empty(),
    };
    let ending = if body.len() > 0 && body.last() == '\n' {
        Seq::empty()
    } else {
        "\n"@
    };
    "---\n"@ + field_text("name"@, name) + field_text("description"@, description) + field_text(
        "type"@,
        kind_word(memory_type),
    ) + scope_line + "---\n"@ + ("\n"@ + body + ending)
}

fn push_field(out: &mut String, key: &str, value: &str)
    ensures
        final(out)@ == old(out)@ + field_text(key@, value@),
{
    out.append(key);
    out.append(": ");
    out.append(value);
    out.append("\n");
    assert(out@ =~= old(out)@ + field_text(key@, value@));
}

/// Format a memory file with YAML frontmatter and body.
pub fn format_memory(
    name: &str,
    description: &str,
    memory_type: &MemoryType,
    scope: Option<&str>,
    body: &str,
) -> (r: String)
    ensures
        r@ == memory_text(name@, description@, *memory_type, opt_str_chars(scope), body@),
{
    let mut out = "---\n".to_owned();
    push_field(&mut out, "name", name);
    push_field(&mut out, "description", description);
    push_field(&mut out, "type", memory_type.to_string().as_str());
    match scope {
        Some(s) => push_field(&mut out, "scope", s),
        None => {},
    }
    out.append("---\n");
    let mut rest = "\n".to_owned();
    rest.append(body);
    let body_chars = chars_of(body);
    let n = body_chars.len();
    if !(n > 0 && body_chars[n - 1] == '\n') {
        rest.append("\n");
    }
    out.append(rest.as_str());
    out
}

} // verus!
