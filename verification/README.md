# agent_memories

A library for committed agent memory files: markdown files under
`.agent/memories/` that start with a frontmatter block

```
---
name: <short identifier>
description: <one-line summary>
type: <user | feedback | project | reference>
scope: <optional>
---

<memory content>
```

The library is written in Verus. Every function in `src/` is verified against
its contract, except the few calls into std and the `regex` crate in
`src/bindings.rs`, whose contracts are taken on trust.

- `src/text.rs`: the character-level model (whitespace, trimming, line
  splitting, splitting at a colon, decimal numbers).
- `src/memory_type.rs`: the four memory types and their names.
- `src/frontmatter.rs`: reading the frontmatter block (`parse_frontmatter`).
- `src/validate.rs`: the validation rules (`validate_memory`) and the
  one-line report of an issue.
- `src/compose.rs`: file names for new memories (`generate_filename`) and the
  text of a new memory file (`format_memory`).
- `src/listing.rs`: which files a directory listing shows and in what order
  (`listing_order`), and the one-line summary of each (`list_entry`).
- `src/laws.rs`: properties that span functions, such as reading back what
  `format_memory` wrote.
- `src/bindings.rs`: the calls into std and the `regex` crate that are taken
  on trust, each with the contract it is believed to meet.

`app/` holds the command-line tool (`validate <file>`, `list <dir>`) and the
function that writes a new memory file to disk.
