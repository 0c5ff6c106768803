//! The one-line summary of a memory file in a directory listing.

use vstd::prelude::*;

use crate::bindings::push_char;
use crate::frontmatter::{opt_frontmatter, FrontmatterModel, MemoryFrontmatter};
use crate::memory_type::kind_word;
use crate::text::{chars_of, lemma_char_vec_deep_view};

verus! {

/// `s` followed by spaces up to `width` characters (unchanged when it is
/// already that long), as `{:<width}` formats it.
pub open spec fn pad_right(s: Seq<char>, width: nat) -> Seq<char> {
    if s.len() >= width {
        s
    } else {
        s + Seq::new((width - s.len()) as nat, |i: int| ' ')
    }
}

/// The listing line of a file. For a file with frontmatter: the type name as
/// it is, the name padded to 20 characters, and the scope (`-` when there is
/// none). Otherwise: `-` padded to 12 characters, the file name padded to 20,
/// and `(no frontmatter)`.
pub open spec fn listing_line(fm: Option<FrontmatterModel>, file_name: Seq<char>) -> Seq<char> {
    match fm {
        Some(m) => kind_word(m.memory_type) + " "@ + pad_right(m.name, 20) + " "@
            + match m.scope {
            Some(s) => s,
            None => "-"@,
        },
        None => pad_right("-"@, 12) + " "@ + pad_right(file_name, 20) + " "@ + "(no frontmatter)"@,
    }
}

fn push_padded(out: &mut String, s: &str, width: usize)
    ensures
        final(out)@ == old(out)@ + pad_right(s@, width as nat),
{
    out.append(s);
    let n = chars_of(s).len();
    let mut k = n;
    while k < width
        invariant
            n == s@.len(),
            n <= k,
            k <= width || k == n,
            out@ == old(out)@ + s@ + Seq::new((k - n) as nat, |i: int| ' '),
        decreases width - k,
    {
        push_char(out, ' ');
        assert(Seq::new((k - n) as nat, |i: int| ' ').push(' ') =~= Seq::new(
            (k + 1 - n) as nat,
            |i: int| ' ',
        ));
        k = k + 1;
    }
    assert(Seq::new((0) as nat, |i: int| ' ') =~= Seq::<char>::empty());
    if n >= width {
        assert(out@ =~= old(out)@ + s@);
    }
}

/// The listing line of a file whose frontmatter parsed as `fm` (see
/// `listing_line`).
pub fn list_entry(fm: &Option<MemoryFrontmatter>, file_name: &str) -> (r: String)
    ensures
        r@ == listing_line(opt_frontmatter(*fm), file_name@),
{
    let mut out = String::new();
    match fm {
        Some(m) => {
            out.append(m.memory_type.to_string().as_str());
            out.append(" ");
            push_padded(&mut out, m.name.as_str(), 20);
            out.append(" ");
            match &m.scope {
                Some(s) => out.append(s.as_str()),
                None => out.append("-"),
            }
        },
        None => {
            push_padded(&mut out, "-", 12);
            out.append(" ");
            push_padded(&mut out, file_name, 20);
            out.append(" ");
            out.append("(no frontmatter)");
        },
    }
    out
}

/// Whether a file name has the extension `md`, as `Path::extension` reads it:
/// the text after the last dot, where that dot is not the name's first
/// character.
pub open spec fn is_markdown_name(f: Seq<char>) -> bool {
    f.len() >= 4 && f.skip(f.len() - 3) == seq!['.', 'm', 'd']
}

/// Whether `a` comes strictly before `b` in lexicographic order of characters
/// (the order of their UTF-8 bytes).
pub open spec fn text_lt(a: Seq<char>, b: Seq<char>) -> bool
    decreases a.len(),
{
    if a.len() == 0 {
        b.len() > 0
    } else if b.len() == 0 {
        false
    } else if a[0] != b[0] {
        a[0] < b[0]
    } else {
        text_lt(a.drop_first(), b.drop_first())
    }
}

/// Whether entry `i` comes before entry `j` when sorted by name, entries with
/// equal names keeping their order.
pub open spec fn entry_lt(names: Seq<Seq<char>>, i: int, j: int) -> bool {
    text_lt(names[i], names[j]) || (names[i] == names[j] && i < j)
}

proof fn lemma_text_lt_irreflexive(a: Seq<char>)
    ensures
        !text_lt(a, a),
    decreases a.len(),
{
    if a.len() > 0 {
        lemma_text_lt_irreflexive(a.drop_first());
    }
}

proof fn lemma_text_lt_transitive(a: Seq<char>, b: Seq<char>, c: Seq<char>)
    requires
        text_lt(a, b),
        text_lt(b, c),
    ensures
        text_lt(a, c),
    decreases a.len(),
{
    if a.len() > 0 && b.len() > 0 && c.len() > 0 && a[0] == b[0] && b[0] == c[0] {
        lemma_text_lt_transitive(a.drop_first(), b.drop_first(), c.drop_first());
    }
}

proof fn lemma_text_lt_total(a: Seq<char>, b: Seq<char>)
    ensures
        a == b || text_lt(a, b) || text_lt(b, a),
    decreases a.len(),
{
    if a.len() > 0 && b.len() > 0 && a[0] == b[0] {
        lemma_text_lt_total(a.drop_first(), b.drop_first());
        if a.drop_first() == b.drop_first() {
            assert(a =~= seq![a[0]] + a.drop_first());
            assert(b =~= seq![b[0]] + b.drop_first());
        }
    } else if a.len() == 0 && b.len() == 0 {
        assert(a =~= b);
    }
}

proof fn lemma_entry_lt_order(names: Seq<Seq<char>>)
    ensures
        forall|i: int| !#[trigger] entry_lt(names, i, i),
        forall|i: int, j: int, k: int|
            #[trigger] entry_lt(names, i, j) && #[trigger] entry_lt(names, j, k) ==> entry_lt(
                names,
                i,
                k,
            ),
        forall|i: int, j: int| i != j ==> #[trigger] entry_lt(names, i, j) || entry_lt(names, j, i),
{
    assert forall|i: int| !#[trigger] entry_lt(names, i, i) by {
        lemma_text_lt_irreflexive(names[i]);
    }
    assert forall|i: int, j: int, k: int|
        #[trigger] entry_lt(names, i, j) && #[trigger] entry_lt(names, j, k) implies entry_lt(
            names,
            i,
            k,
        ) by {
        if text_lt(names[i], names[j]) && text_lt(names[j], names[k]) {
            lemma_text_lt_transitive(names[i], names[j], names[k]);
        }
    }
    assert forall|i: int, j: int| i != j implies #[trigger] entry_lt(names, i, j) || entry_lt(
        names,
        j,
        i,
    ) by {
        lemma_text_lt_total(names[i], names[j]);
    }
}

/// Whether `a` comes strictly before `b` (see `text_lt`).
fn chars_lt(a: &Vec<char>, b: &Vec<char>) -> (r: bool)
    ensures
        r == text_lt(a@, b@),
{
    let n = if a.len() < b.len() {
        a.len()
    } else {
        b.len()
    };
    let mut i: usize = 0;
    assert(a@.skip(0) =~= a@);
    assert(b@.skip(0) =~= b@);
    while i < n && a[i] == b[i]
        invariant
            i <= n,
            n <= a@.len(),
            n <= b@.len(),
            n == a@.len() || n == b@.len(),
            text_lt(a@, b@) == text_lt(a@.skip(i as int), b@.skip(i as int)),
        decreases n - i,
    {
        assert(a@.skip(i as int).drop_first() =~= a@.skip(i + 1));
        assert(b@.skip(i as int).drop_first() =~= b@.skip(i + 1));
        i = i + 1;
    }
    if i < n {
        a[i] < b[i]
    } else {
        i < b.len()
    }
}

fn is_markdown(f: &Vec<char>) -> (r: bool)
    ensures
        r == is_markdown_name(f@),
{
    let n = f.len();
    if n < 4 {
        return false;
    }
    let r = f[n - 3] == '.' && f[n - 2] == 'm' && f[n - 1] == 'd';
    assert(r == (f@.skip(n - 3) =~= seq!['.', 'm', 'd']));
    r
}

/// The names of a sequence of strings.
pub open spec fn name_views(names: Seq<String>) -> Seq<Seq<char>> {
    names.map_values(|s: String| s@)
}

/// The entries that a directory listing shows, in the order it shows them:
/// the indices of the names with the extension `md`, sorted by name (entries
/// with equal names keep their order).
pub fn listing_order(names: &Vec<String>) -> (r: Vec<usize>)
    ensures
        forall|k: int|
            0 <= k < r@.len() ==> #[trigger] r@[k] < names@.len() && is_markdown_name(
                names@[r@[k] as int]@,
            ),
        forall|i: int|
            0 <= i < names@.len() && is_markdown_name(#[trigger] names@[i]@) ==> r@.contains(
                i as usize,
            ),
        forall|k: int, l: int|
            0 <= k < l < r@.len() ==> entry_lt(name_views(names@), #[trigger] r@[k] as int, #[trigger] r@[l] as int),
{
    broadcast use lemma_char_vec_deep_view;

    let ghost nv = name_views(names@);
    let n = names.len();
    let mut texts: Vec<Vec<char>> = Vec::new();
    let mut pending: Vec<bool> = Vec::new();
    for i in 0..n
        invariant
            n == names@.len(),
            nv == name_views(names@),
            texts@.len() == i,
            pending@.len() == i,
            forall|j: int| 0 <= j < i ==> #[trigger] texts@[j]@ == nv[j],
            forall|j: int| 0 <= j < i ==> #[trigger] pending@[j] == is_markdown_name(nv[j]),
    {
        let t = chars_of(names[i].as_str());
        let md = is_markdown(&t);
        texts.push(t);
        pending.push(md);
    }
    proof {
        lemma_entry_lt_order(nv);
    }
    let mut out: Vec<usize> = Vec::new();
    loop
        invariant
            n == names@.len(),
            n == nv.len(),
            nv == name_views(names@),
            texts@.len() == n,
            pending@.len() == n,
            forall|j: int| 0 <= j < n ==> #[trigger] texts@[j]@ == nv[j],
            forall|i: int, j: int, k: int|
                #[trigger] entry_lt(nv, i, j) && #[trigger] entry_lt(nv, j, k) ==> entry_lt(nv, i, k),
            forall|i: int, j: int| i != j ==> #[trigger] entry_lt(nv, i, j) || entry_lt(nv, j, i),
            forall|k: int| 0 <= k < out@.len() ==> #[trigger] out@[k] < n && is_markdown_name(nv[out@[k] as int]) && !pending@[out@[k] as int],
            forall|j: int| 0 <= j < n && pending@[j] ==> is_markdown_name(#[trigger] nv[j]),
            forall|j: int| 0 <= j < n && is_markdown_name(#[trigger] nv[j]) ==> pending@[j] || out@.contains(j as usize),
            forall|k: int, l: int| 0 <= k < l < out@.len() ==> entry_lt(nv, #[trigger] out@[k] as int, #[trigger] out@[l] as int),
            forall|k: int, j: int| 0 <= k < out@.len() && 0 <= j < n && #[trigger] pending@[j] ==> entry_lt(nv, #[trigger] out@[k] as int, j),
        ensures
            forall|j: int| 0 <= j < n ==> !#[trigger] pending@[j],
        decreases pending@.filter(|b: bool| b).len(),
    {
        // the first entry, in listing order, among those still pending
        let mut best: usize = n;
        let mut j: usize = 0;
        while j < n
            invariant
                j <= n,
                n == nv.len(),
                texts@.len() == n,
                pending@.len() == n,
                forall|x: int| 0 <= x < n ==> #[trigger] texts@[x]@ == nv[x],
                forall|i: int, y: int, k: int|
                    #[trigger] entry_lt(nv, i, y) && #[trigger] entry_lt(nv, y, k) ==> entry_lt(nv, i, k),
                forall|i: int, y: int| i != y ==> #[trigger] entry_lt(nv, i, y) || entry_lt(nv, y, i),
                best == n || (best < j && pending@[best as int]),
                best == n ==> forall|x: int| 0 <= x < j ==> !#[trigger] pending@[x],
                best < n ==> forall|x: int| 0 <= x < j && #[trigger] pending@[x] && x != best ==> entry_lt(nv, best as int, x),
            decreases n - j,
        {
            if pending[j] {
                if best == n {
                    best = j;
                } else if chars_lt(&texts[j], &texts[best]) {
                    let ghost old_best = best as int;
                    proof {
                        assert(entry_lt(nv, j as int, old_best));
                        assert forall|x: int| 0 <= x < j + 1 && #[trigger] pending@[x] && x != j implies entry_lt(nv, j as int, x) by {
                            if x != old_best {
                                assert(entry_lt(nv, old_best, x));
                                assert(entry_lt(nv, j as int, old_best) && entry_lt(nv, old_best, x));
                            }
                        }
                    }
                    best = j;
                } else {
                    proof {
                        assert(!entry_lt(nv, j as int, best as int));
                        assert(entry_lt(nv, best as int, j as int) || entry_lt(nv, j as int, best as int));
                    }
                }
            }
            j = j + 1;
        }
        if best == n {
            break;
        }
        proof {
            assert(forall|x: int| 0 <= x < n && #[trigger] pending@[x] && x != best ==> entry_lt(nv, best as int, x));
        }
        let ghost before = pending@;
        let ghost before_out = out@;
        pending.set(best, false);
        out.push(best);
        proof {
            assert(out@[out@.len() - 1] == best);
            assert forall|x: int| 0 <= x < n && is_markdown_name(#[trigger] nv[x]) implies pending@[x] || out@.contains(x as usize) by {
                if x == best {
                    assert(out@[out@.len() - 1] == best);
                } else if !before[x] {
                    let k = choose|k: int| 0 <= k < before_out.len() && before_out[k] == x as usize;
                    assert(out@[k] == before_out[k]);
                }
            }
            assert forall|k: int, l: int| 0 <= k < l < out@.len() implies entry_lt(nv, #[trigger] out@[k] as int, #[trigger] out@[l] as int) by {
                if l == out@.len() - 1 {
                    assert(out@[k] == before_out[k]);
                    assert(before[best as int]);
                } else {
                    assert(out@[k] == before_out[k] && out@[l] == before_out[l]);
                }
            }
            assert forall|k: int, x: int| 0 <= k < out@.len() && 0 <= x < n && #[trigger] pending@[x] implies entry_lt(nv, #[trigger] out@[k] as int, x) by {
                assert(before[x]);
                if k == out@.len() - 1 {
                } else {
                    assert(out@[k] == before_out[k]);
                }
            }
            assert forall|k: int| 0 <= k < out@.len() implies #[trigger] out@[k] < n && is_markdown_name(nv[out@[k] as int]) && !pending@[out@[k] as int] by {
                if k < out@.len() - 1 {
                    assert(out@[k] == before_out[k]);
                }
            }
            assert(before.filter(|b: bool| b).len() > pending@.filter(|b: bool| b).len()) by {
                lemma_filter_count_drop(before, best as int);
            }
        }
    }
    assert forall|i: int| 0 <= i < names@.len() implies #[trigger] names@[i]@ == nv[i] by {}
    out
}

proof fn lemma_filter_count_drop(s: Seq<bool>, i: int)
    requires
        0 <= i < s.len(),
        s[i],
    ensures
        s.update(i, false).filter(|b: bool| b).len() < s.filter(|b: bool| b).len(),
    decreases s.len(),
{
    reveal(Seq::filter);
    let t = s.update(i, false);
    if i == s.len() - 1 {
        assert(t.drop_last() =~= s.drop_last());
    } else {
        assert(t.drop_last() =~= s.drop_last().update(i, false));
        lemma_filter_count_drop(s.drop_last(), i);
    }
}

} // verus!
