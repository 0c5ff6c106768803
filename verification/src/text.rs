//! Character-level text model: whitespace, trimming, line splitting and
//! key/value splitting, over `Seq<char>` in specifications and `Vec<char>`
//! in executable code.

use vstd::prelude::*;

use crate::bindings::push_char;

verus! {

/// The ASCII lowercase of a character, as `char::to_ascii_lowercase` documents
/// it: `'A'..='Z'` map to `'a'..='z'`, every other character is unchanged.
pub open spec fn ascii_lower(c: char) -> char {
    if 'A' <= c <= 'Z' {
        (((c as u8) + 32) as u8) as char
    } else {
        c
    }
}

/// The ASCII lowercase of a character (see `ascii_lower`).
pub fn to_ascii_lower(c: char) -> (r: char)
    ensures
        r == ascii_lower(c),
{
    if 'A' <= c && c <= 'Z' {
        ((c as u8) + 32) as char
    } else {
        c
    }
}

/// Whether a character is an ASCII letter or digit.
pub open spec fn is_ascii_alnum(c: char) -> bool {
    'a' <= c <= 'z' || 'A' <= c <= 'Z' || '0' <= c <= '9'
}

/// Whether every character of `s` is ASCII.
pub open spec fn is_ascii_text(s: Seq<char>) -> bool {
    forall|i: int| 0 <= i < s.len() ==> (#[trigger] s[i] as u32) < 128
}

/// `s` with every character in ASCII lowercase.
pub open spec fn ascii_lower_text(s: Seq<char>) -> Seq<char> {
    s.map_values(|c: char| ascii_lower(c))
}

/// A vector of characters deep-views as its characters.
pub broadcast proof fn lemma_char_vec_deep_view(v: Vec<char>)
    ensures
        #[trigger] v.deep_view() == v@,
{
    assert(v.deep_view() =~= v@);
}

/// Unicode `White_Space`: the characters that `char::is_whitespace` accepts.
pub open spec fn is_ws(c: char) -> bool {
    let u = c as u32;
    ||| 0x9 <= u <= 0xd
    ||| u == 0x20
    ||| u == 0x85
    ||| u == 0xa0
    ||| u == 0x1680
    ||| 0x2000 <= u <= 0x200a
    ||| u == 0x2028
    ||| u == 0x2029
    ||| u == 0x202f
    ||| u == 0x205f
    ||| u == 0x3000
}

/// Executable form of `is_ws`.
pub fn is_whitespace(c: char) -> (r: bool)
    ensures
        r == is_ws(c),
{
    let u = c as u32;
    (0x9 <= u && u <= 0xd) || u == 0x20 || u == 0x85 || u == 0xa0 || u == 0x1680 || (0x2000
        <= u && u <= 0x200a) || u == 0x2028 || u == 0x2029 || u == 0x202f || u == 0x205f || u
        == 0x3000
}

/// The characters of a string slice, in order.
pub fn chars_of(s: &str) -> (v: Vec<char>)
    ensures
        v@ == s@,
{
    let mut v: Vec<char> = Vec::new();
    for c in it: s.chars()
        invariant
            v@ == it.seq().take(it.index() as int),
    {
        v.push(c);
    }
    v
}


/// Whether every character of `s` is whitespace (also true of the empty sequence).
pub open spec fn is_blank(s: Seq<char>) -> bool {
    forall|i: int| 0 <= i < s.len() ==> #[trigger] is_ws(s[i])
}

/// `s` without its leading whitespace.
pub open spec fn trim_start(s: Seq<char>) -> Seq<char>
    decreases s.len(),
{
    if s.len() > 0 && is_ws(s[0]) {
        trim_start(s.drop_first())
    } else {
        s
    }
}

/// `s` without its trailing whitespace.
pub open spec fn trim_end(s: Seq<char>) -> Seq<char>
    decreases s.len(),
{
    if s.len() > 0 && is_ws(s.last()) {
        trim_end(s.drop_last())
    } else {
        s
    }
}

/// `s` without leading and trailing whitespace, as `str::trim` gives it.
pub open spec fn trim(s: Seq<char>) -> Seq<char> {
    trim_end(trim_start(s))
}

proof fn lemma_trim_start_skip(s: Seq<char>, i: int)
    requires
        0 <= i <= s.len(),
        forall|j: int| 0 <= j < i ==> #[trigger] is_ws(s[j]),
    ensures
        trim_start(s) == trim_start(s.subrange(i, s.len() as int)),
    decreases i,
{
    if i > 0 {
        assert(s.drop_first().subrange(i - 1, s.drop_first().len() as int) =~= s.subrange(
            i,
            s.len() as int,
        ));
        lemma_trim_start_skip(s.drop_first(), i - 1);
    } else {
        assert(s.subrange(0, s.len() as int) =~= s);
    }
}

proof fn lemma_trim_end_cut(s: Seq<char>, j: int)
    requires
        0 <= j <= s.len(),
        forall|k: int| j <= k < s.len() ==> #[trigger] is_ws(s[k]),
    ensures
        trim_end(s) == trim_end(s.subrange(0, j)),
    decreases s.len() - j,
{
    if j < s.len() {
        assert(s.drop_last().subrange(0, j) =~= s.subrange(0, j));
        lemma_trim_end_cut(s.drop_last(), j);
    } else {
        assert(s.subrange(0, s.len() as int) =~= s);
    }
}

/// The whitespace-trimmed copy of `s`.
pub fn trim_chars(s: &Vec<char>) -> (r: Vec<char>)
    ensures
        r@ == trim(s@),
{
    let n = s.len();
    let mut i: usize = 0;
    while i < n && is_whitespace(s[i])
        invariant
            i <= n,
            n == s@.len(),
            forall|j: int| 0 <= j < i ==> #[trigger] is_ws(s@[j]),
        decreases n - i,
    {
        i = i + 1;
    }
    let ghost t = s@.subrange(i as int, n as int);
    proof {
        lemma_trim_start_skip(s@, i as int);
        if i < n {
            assert(!is_ws(t[0]));
        } else {
            assert(t.len() == 0);
        }
        assert(trim_start(s@) == t);
    }
    let mut j: usize = n;
    while j > i && is_whitespace(s[j - 1])
        invariant
            i <= j <= n,
            n == s@.len(),
            t == s@.subrange(i as int, n as int),
            forall|k: int| j <= k < n ==> #[trigger] is_ws(s@[k]),
        decreases j,
    {
        j = j - 1;
    }
    proof {
        assert forall|k: int| j - i <= k < t.len() implies #[trigger] is_ws(t[k]) by {
            assert(t[k] == s@[k + i]);
        }
        lemma_trim_end_cut(t, j - i);
        let u = t.subrange(0, j - i);
        if j > i {
            assert(u.last() == s@[j - 1]);
        }
        assert(trim_end(u) == u);
        assert(u =~= s@.subrange(i as int, j as int));
    }
    let mut r: Vec<char> = Vec::new();
    let mut k: usize = i;
    while k < j
        invariant
            i <= k <= j <= n,
            n == s@.len(),
            r@ =~= s@.subrange(i as int, k as int),
        decreases j - k,
    {
        r.push(s[k]);
        k = k + 1;
    }
    r
}

/// Executable form of `is_blank`.
pub fn is_blank_chars(s: &Vec<char>) -> (r: bool)
    ensures
        r == is_blank(s@),
{
    let n = s.len();
    for i in 0..n
        invariant
            n == s@.len(),
            forall|j: int| 0 <= j < i ==> #[trigger] is_ws(s@[j]),
    {
        if !is_whitespace(s[i]) {
            return false;
        }
    }
    true
}

/// Whether two character sequences are equal.
pub fn chars_eq(a: &Vec<char>, b: &Vec<char>) -> (r: bool)
    ensures
        r == (a@ == b@),
{
    if a.len() != b.len() {
        return false;
    }
    let n = a.len();
    for i in 0..n
        invariant
            n == a@.len(),
            n == b@.len(),
            forall|j: int| 0 <= j < i ==> a@[j] == b@[j],
    {
        if a[i] != b[i] {
            return false;
        }
    }
    assert(a@ =~= b@);
    true
}


/// A line without the carriage return that ends it, if any.
pub open spec fn strip_cr(line: Seq<char>) -> Seq<char> {
    if line.len() > 0 && line.last() == '\r' {
        line.drop_last()
    } else {
        line
    }
}

/// The lines of `s` read from left to right: the lines finished so far (each
/// ended by `'\n'`, a `'\r'` before it removed) and the line in progress.
pub open spec fn lines_acc(s: Seq<char>) -> (Seq<Seq<char>>, Seq<char>)
    decreases s.len(),
{
    if s.len() == 0 {
        (Seq::empty(), Seq::empty())
    } else {
        let (done, cur) = lines_acc(s.drop_last());
        if s.last() == '\n' {
            (done.push(strip_cr(cur)), Seq::empty())
        } else {
            (done, cur.push(s.last()))
        }
    }
}

/// The lines of `s`, as `str::lines` yields them: split at `'\n'`, a `'\r'`
/// before a `'\n'` dropped, and no empty line after a final line ending.
pub open spec fn lines(s: Seq<char>) -> Seq<Seq<char>> {
    let (done, cur) = lines_acc(s);
    if cur.len() == 0 {
        done
    } else {
        done.push(cur)
    }
}

proof fn lemma_lines_acc_len(s: Seq<char>)
    ensures
        ({
            let (done, cur) = lines_acc(s);
            &&& done.len() == 0 ==> cur.len() <= s.len()
            &&& done.len() > 0 ==> done[0].len() + done.len() + cur.len() <= s.len()
        }),
    decreases s.len(),
{
    if s.len() > 0 {
        lemma_lines_acc_len(s.drop_last());
    }
}

/// A text has no more lines than characters, and its first line together
/// with the number of lines is at most one more than its length.
pub proof fn lemma_lines_len(s: Seq<char>)
    ensures
        lines(s).len() <= s.len(),
        lines(s).len() > 0 ==> lines(s)[0].len() + lines(s).len() <= s.len() + 1,
{
    lemma_lines_acc_len(s);
}

/// Trimming never lengthens a sequence.
pub proof fn lemma_trim_len(s: Seq<char>)
    ensures
        trim(s).len() <= trim_start(s).len() <= s.len(),
{
    lemma_trim_start_len(s);
    lemma_trim_end_len(trim_start(s));
}

proof fn lemma_trim_start_len(s: Seq<char>)
    ensures
        trim_start(s).len() <= s.len(),
    decreases s.len(),
{
    if s.len() > 0 && is_ws(s[0]) {
        lemma_trim_start_len(s.drop_first());
    }
}

proof fn lemma_trim_end_len(s: Seq<char>)
    ensures
        trim_end(s).len() <= s.len(),
    decreases s.len(),
{
    if s.len() > 0 && is_ws(s.last()) {
        lemma_trim_end_len(s.drop_last());
    }
}

/// Reading `p` and then `q`, when `p` ends at a line break, gives the lines of
/// `p` followed by those of `q`.
pub proof fn lemma_lines_acc_append(p: Seq<char>, q: Seq<char>)
    requires
        lines_acc(p).1.len() == 0,
    ensures
        lines_acc(p + q) == (lines_acc(p).0 + lines_acc(q).0, lines_acc(q).1),
    decreases q.len(),
{
    if q.len() == 0 {
        assert(p + q =~= p);
        assert(lines_acc(p).0 + lines_acc(q).0 =~= lines_acc(p).0);
    } else {
        lemma_lines_acc_append(p, q.drop_last());
        assert((p + q).drop_last() =~= p + q.drop_last());
        assert((p + q).last() == q.last());
        let d0 = lines_acc(p).0;
        let dq = lines_acc(q.drop_last()).0;
        let cq = lines_acc(q.drop_last()).1;
        if q.last() == '\n' {
            assert(d0 + dq.push(strip_cr(cq)) =~= (d0 + dq).push(strip_cr(cq)));
        }
    }
}

/// The lines of `p` followed by `q`, when `p` ends at a line break.
pub proof fn lemma_lines_append(p: Seq<char>, q: Seq<char>)
    requires
        lines_acc(p).1.len() == 0,
    ensures
        lines(p + q) == lines_acc(p).0 + lines(q),
{
    lemma_lines_acc_append(p, q);
    let (d, c) = lines_acc(q);
    if c.len() > 0 {
        assert((lines_acc(p).0 + d).push(c) =~= lines_acc(p).0 + d.push(c));
    }
}

/// A text without line breaks is one unfinished line.
pub proof fn lemma_lines_acc_no_newline(x: Seq<char>)
    requires
        forall|i: int| 0 <= i < x.len() ==> x[i] != '\n',
    ensures
        lines_acc(x) == (Seq::<Seq<char>>::empty(), x),
    decreases x.len(),
{
    if x.len() > 0 {
        lemma_lines_acc_no_newline(x.drop_last());
        assert(x.drop_last().push(x.last()) =~= x);
    }
}

/// A text without line breaks followed by one line break is one finished line.
pub proof fn lemma_lines_acc_line(x: Seq<char>)
    requires
        forall|i: int| 0 <= i < x.len() ==> x[i] != '\n',
    ensures
        lines_acc(x + seq!['\n']) == (seq![strip_cr(x)], Seq::<char>::empty()),
{
    lemma_lines_acc_no_newline(x);
    assert((x + seq!['\n']).drop_last() =~= x);
    assert(Seq::<Seq<char>>::empty().push(strip_cr(x)) =~= seq![strip_cr(x)]);
}

/// Every line of a text is blank exactly when the whole text is.
pub proof fn lemma_lines_blank(s: Seq<char>)
    ensures
        (forall|j: int| 0 <= j < lines(s).len() ==> #[trigger] is_blank(lines(s)[j])) <==> is_blank(s),
{
    lemma_lines_acc_blank(s);
    let (d, c) = lines_acc(s);
    if c.len() > 0 {
        assert(lines(s) == d.push(c));
        if is_blank(s) {
            assert forall|j: int| 0 <= j < lines(s).len() implies #[trigger] is_blank(lines(s)[j]) by {
                if j < d.len() {
                    assert(lines(s)[j] == d[j]);
                }
            }
        }
        if forall|j: int| 0 <= j < lines(s).len() ==> #[trigger] is_blank(lines(s)[j]) {
            assert forall|j: int| 0 <= j < d.len() implies #[trigger] is_blank(d[j]) by {
                assert(lines(s)[j] == d[j]);
            }
            assert(is_blank(lines(s)[d.len() as int]));
        }
    }
}

proof fn lemma_lines_acc_blank(s: Seq<char>)
    ensures
        ((forall|j: int| 0 <= j < lines_acc(s).0.len() ==> #[trigger] is_blank(lines_acc(s).0[j]))
            && is_blank(lines_acc(s).1)) <==> is_blank(s),
    decreases s.len(),
{
    if s.len() > 0 {
        lemma_lines_acc_blank(s.drop_last());
        let (d, c) = lines_acc(s.drop_last());
        let x = s.last();
        assert(s.drop_last().push(x) =~= s);
        if is_blank(s) {
            assert forall|i: int| 0 <= i < s.drop_last().len() implies #[trigger] is_ws(
                s.drop_last()[i],
            ) by {
                assert(s.drop_last()[i] == s[i]);
            }
            assert(is_ws(s[s.len() - 1]));
        }
        if x == '\n' {
            let d2 = d.push(strip_cr(c));
            if is_blank(c) {
                assert(is_blank(strip_cr(c))) by {
                    if c.len() > 0 && c.last() == '\r' {
                        assert forall|i: int| 0 <= i < c.drop_last().len() implies #[trigger] is_ws(
                            c.drop_last()[i],
                        ) by {
                            assert(c.drop_last()[i] == c[i]);
                        }
                    }
                }
            }
            if is_blank(strip_cr(c)) {
                assert(is_blank(c)) by {
                    if c.len() > 0 && c.last() == '\r' {
                        assert forall|i: int| 0 <= i < c.len() implies #[trigger] is_ws(c[i]) by {
                            if i < c.len() - 1 {
                                assert(c.drop_last()[i] == c[i]);
                            }
                        }
                    }
                }
            }
            if (forall|j: int| 0 <= j < d2.len() ==> #[trigger] is_blank(d2[j])) {
                assert forall|j: int| 0 <= j < d.len() implies #[trigger] is_blank(d[j]) by {
                    assert(d2[j] == d[j]);
                }
                assert(is_blank(d2[d.len() as int]));
            }
            if is_blank(s) {
                assert forall|j: int| 0 <= j < d2.len() implies #[trigger] is_blank(d2[j]) by {
                    if j < d.len() {
                        assert(d2[j] == d[j]);
                    }
                }
            }
            if is_blank(s.drop_last()) {
                assert forall|i: int| 0 <= i < s.len() implies #[trigger] is_ws(s[i]) by {
                    if i < s.len() - 1 {
                        assert(s.drop_last()[i] == s[i]);
                    }
                }
            }
        } else {
            let c2 = c.push(x);
            if is_blank(c2) {
                assert forall|i: int| 0 <= i < c.len() implies #[trigger] is_ws(c[i]) by {
                    assert(c2[i] == c[i]);
                }
                assert(is_ws(c2[c.len() as int]));
            }
            if is_blank(c) && is_ws(x) {
                assert forall|i: int| 0 <= i < c2.len() implies #[trigger] is_ws(c2[i]) by {
                    if i < c.len() {
                        assert(c2[i] == c[i]);
                    }
                }
            }
            if is_blank(s.drop_last()) && is_ws(x) {
                assert forall|i: int| 0 <= i < s.len() implies #[trigger] is_ws(s[i]) by {
                    if i < s.len() - 1 {
                        assert(s.drop_last()[i] == s[i]);
                    }
                }
            }
        }
    }
}

/// Whitespace at the front does not change the trimmed text.
pub proof fn lemma_trim_drop_first(s: Seq<char>)
    requires
        s.len() > 0,
        is_ws(s[0]),
    ensures
        trim(s) == trim(s.drop_first()),
{
}

/// Whitespace at the end does not change the trimmed text.
pub proof fn lemma_trim_drop_last(s: Seq<char>)
    requires
        s.len() > 0,
        is_ws(s.last()),
    ensures
        trim(s) == trim(s.drop_last()),
    decreases s.len(),
{
    if s.len() == 1 {
        assert(s.drop_last().len() == 0);
        assert(trim_start(s.drop_first()) == s.drop_first());
    } else if is_ws(s[0]) {
        assert(s.drop_last().drop_first() =~= s.drop_first().drop_last());
        lemma_trim_drop_last(s.drop_first());
        assert(s.drop_last()[0] == s[0]);
    } else {
        assert(s.drop_last()[0] == s[0]);
    }
}

/// A sequence with no whitespace at its ends is its own trim.
pub proof fn lemma_trim_fixed(s: Seq<char>)
    requires
        s.len() > 0 ==> !is_ws(s[0]) && !is_ws(s.last()),
    ensures
        trim(s) == s,
{
}

pub proof fn lemma_trim_end_prefix(s: Seq<char>)
    ensures
        trim_end(s) == s.take(trim_end(s).len() as int),
        trim_end(s).len() <= s.len(),
        trim_end(s).len() > 0 ==> !is_ws(trim_end(s).last()),
    decreases s.len(),
{
    if s.len() > 0 && is_ws(s.last()) {
        lemma_trim_end_prefix(s.drop_last());
        assert(s.drop_last().take(trim_end(s).len() as int) =~= s.take(trim_end(s).len() as int));
    } else {
        assert(s.take(s.len() as int) =~= s);
    }
}

pub proof fn lemma_trim_start_first(s: Seq<char>)
    ensures
        trim_start(s).len() > 0 ==> !is_ws(trim_start(s)[0]),
    decreases s.len(),
{
    if s.len() > 0 && is_ws(s[0]) {
        lemma_trim_start_first(s.drop_first());
    }
}

/// Trimming twice is trimming once.
pub proof fn lemma_trim_idempotent(s: Seq<char>)
    ensures
        trim(trim(s)) == trim(s),
{
    let t = trim_start(s);
    let u = trim_end(t);
    lemma_trim_start_first(s);
    lemma_trim_end_prefix(t);
    if u.len() > 0 {
        assert(u[0] == t[0]);
    }
    lemma_trim_fixed(u);
}

/// The lines of `s` (see `lines`).
pub fn split_lines(s: &Vec<char>) -> (r: Vec<Vec<char>>)
    ensures
        r.deep_view() == lines(s@),
{
    let n = s.len();
    let mut done: Vec<Vec<char>> = Vec::new();
    let mut cur: Vec<char> = Vec::new();
    for i in 0..n
        invariant
            n == s@.len(),
            (done.deep_view(), cur@) == lines_acc(s@.take(i as int)),
    {
        let c = s[i];
        proof {
            assert(s@.take(i + 1).drop_last() =~= s@.take(i as int));
        }
        if c == '\n' {
            let ghost old_done = done.deep_view();
            let ghost old_vec = done@;
            let ghost line_view = strip_cr(cur@);
            if cur.len() > 0 && cur[cur.len() - 1] == '\r' {
                cur.pop();
            }
            assert(cur@ =~= line_view);
            let mut line: Vec<char> = Vec::new();
            std::mem::swap(&mut line, &mut cur);
            done.push(line);
            proof {
                assert forall|k: int| 0 <= k < done@.len() implies #[trigger] done.deep_view()[k]
                    == old_done.push(line_view)[k] by {
                    if k < old_vec.len() {
                        assert(done@[k] == old_vec[k]);
                    }
                }
            }
            assert(done.deep_view() =~= lines_acc(s@.take(i + 1)).0);
            assert(cur@ =~= lines_acc(s@.take(i + 1)).1);
        } else {
            cur.push(c);
        }
    }
    assert(s@.take(n as int) =~= s@);
    if cur.len() > 0 {
        let ghost old_done = done.deep_view();
        let ghost old_vec = done@;
        let ghost last = cur@;
        done.push(cur);
        proof {
            assert forall|k: int| 0 <= k < done@.len() implies #[trigger] done.deep_view()[k]
                == old_done.push(last)[k] by {
                if k < old_vec.len() {
                    assert(done@[k] == old_vec[k]);
                }
            }
            assert(done.deep_view() =~= old_done.push(last));
        }
    }
    done
}

/// The index of the first `c` in `s`, if any.
pub open spec fn first_index(s: Seq<char>, c: char) -> Option<int>
    decreases s.len(),
{
    if s.len() == 0 {
        None
    } else if s[0] == c {
        Some(0)
    } else {
        match first_index(s.drop_first(), c) {
            Some(k) => Some(k + 1),
            None => None,
        }
    }
}

pub proof fn lemma_first_index(s: Seq<char>, c: char, k: int)
    requires
        0 <= k <= s.len(),
        forall|j: int| 0 <= j < k ==> s[j] != c,
    ensures
        k < s.len() && s[k] == c ==> first_index(s, c) == Some(k),
        k == s.len() ==> first_index(s, c) is None,
    decreases k,
{
    if k > 0 {
        lemma_first_index(s.drop_first(), c, k - 1);
    }
}

/// `s` split at its first `c`, as `str::split_once` splits it.
pub open spec fn split_once(s: Seq<char>, c: char) -> Option<(Seq<char>, Seq<char>)> {
    match first_index(s, c) {
        Some(k) => Some((s.take(k), s.skip(k + 1))),
        None => None,
    }
}

/// `s` split at its first `c` (see `split_once`).
pub fn split_once_chars(s: &Vec<char>, c: char) -> (r: Option<(Vec<char>, Vec<char>)>)
    ensures
        match r {
            Some((a, b)) => split_once(s@, c) == Some((a@, b@)),
            None => split_once(s@, c) is None,
        },
{
    let n = s.len();
    let mut k: usize = 0;
    while k < n && s[k] != c
        invariant
            k <= n,
            n == s@.len(),
            forall|j: int| 0 <= j < k ==> s@[j] != c,
        decreases n - k,
    {
        k = k + 1;
    }
    proof {
        lemma_first_index(s@, c, k as int);
    }
    if k == n {
        return None;
    }
    let mut a: Vec<char> = Vec::new();
    let mut b: Vec<char> = Vec::new();
    for i in 0..k
        invariant
            k < n,
            n == s@.len(),
            a@ =~= s@.take(i as int),
    {
        a.push(s[i]);
    }
    let mut j: usize = k + 1;
    while j < n
        invariant
            k < j <= n,
            n == s@.len(),
            b@ =~= s@.subrange(k + 1, j as int),
        decreases n - j,
    {
        b.push(s[j]);
        j = j + 1;
    }
    assert(b@ =~= s@.skip(k + 1));
    Some((a, b))
}


/// A `String` holding the characters of `v`.
pub fn string_of(v: &Vec<char>) -> (r: String)
    ensures
        r@ == v@,
{
    let mut r = String::new();
    let n = v.len();
    for i in 0..n
        invariant
            n == v@.len(),
            r@ =~= v@.take(i as int),
    {
        push_char(&mut r, v[i]);
    }
    assert(v@.take(n as int) =~= v@);
    r
}

/// The decimal digit character for `d < 10`.
pub open spec fn digit(d: nat) -> char {
    if d == 0 {
        '0'
    } else if d == 1 {
        '1'
    } else if d == 2 {
        '2'
    } else if d == 3 {
        '3'
    } else if d == 4 {
        '4'
    } else if d == 5 {
        '5'
    } else if d == 6 {
        '6'
    } else if d == 7 {
        '7'
    } else if d == 8 {
        '8'
    } else {
        '9'
    }
}

/// The decimal representation of `n`, without leading zeros.
pub open spec fn decimal(n: nat) -> Seq<char>
    decreases n,
{
    if n < 10 {
        seq![digit(n)]
    } else {
        decimal(n / 10).push(digit(n % 10))
    }
}

fn digit_char(d: usize) -> (r: char)
    requires
        d < 10,
    ensures
        r == digit(d as nat),
{
    if d == 0 {
        '0'
    } else if d == 1 {
        '1'
    } else if d == 2 {
        '2'
    } else if d == 3 {
        '3'
    } else if d == 4 {
        '4'
    } else if d == 5 {
        '5'
    } else if d == 6 {
        '6'
    } else if d == 7 {
        '7'
    } else if d == 8 {
        '8'
    } else {
        '9'
    }
}

/// Appends the decimal representation of `n` to `out`.
pub fn push_decimal(out: &mut String, n: usize)
    ensures
        final(out)@ == old(out)@ + decimal(n as nat),
    decreases n,
{
    if n >= 10 {
        push_decimal(out, n / 10);
    }
    push_char(out, digit_char(n % 10));
}

} // verus!
