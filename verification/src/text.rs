//! Character-level helpers over `str` and `String` with exact contracts.
use vstd::prelude::*;

verus! {

broadcast use vstd::string::group_string_axioms;

// ---------------------------------------------------------------------------
// Building strings
// ---------------------------------------------------------------------------

/// Appends one character to a `String` (`String::push`).
///
/// Trusted: std documents that `push` appends the given char to the end.
#[verifier::external_body]
pub(crate) fn push_char(s: &mut String, c: char)
    ensures
        final(s)@ == old(s)@.push(c),
{
    s.push(c);
}

/// Appends the characters of `v` to `s`.
pub fn push_chars(s: &mut String, v: &[char])
    ensures
        final(s)@ == old(s)@ + v@,
{
    let ghost start = s@;
    let mut i: usize = 0;
    while i < v.len()
        invariant
            i <= v@.len(),
            s@ == start + v@.take(i as int),
        decreases v@.len() - i,
    {
        push_char(s, v[i]);
        assert(v@.take(i as int).push(v@[i as int]) =~= v@.take(i + 1));
        assert((start + v@.take(i as int)).push(v@[i as int]) =~= start + v@.take(i + 1));
        i += 1;
    }
    assert(v@.take(v@.len() as int) =~= v@);
}

/// Appends the characters of `t` to `s`.
pub fn push_str(s: &mut String, t: &str)
    ensures
        final(s)@ == old(s)@ + t@,
{
    s.append(t);
}

/// The character sequences of a list of strings.
pub open spec fn string_views(v: Seq<String>) -> Seq<Seq<char>> {
    v.map_values(|f: String| f@)
}

/// The character sequences of a list of character vectors.
pub open spec fn char_views(v: Seq<Vec<char>>) -> Seq<Seq<char>> {
    v.map_values(|l: Vec<char>| l@)
}

/// The characters of `s`, in order.
pub fn chars_of(s: &str) -> (v: Vec<char>)
    ensures
        v@ == s@,
{
    let mut v: Vec<char> = Vec::new();
    for c in it: s.chars()
        invariant
            it.seq() == s@,
            v@ == it.seq().take(it.index() as int),
    {
        v.push(c);
    }
    v
}

/// A `String` holding exactly the characters of `v`.
pub fn string_of(v: &[char]) -> (s: String)
    ensures
        s@ == v@,
{
    let mut s = String::new();
    push_chars(&mut s, v);
    s
}

/// A copy of `v[from..to]`.
pub fn sub_chars(v: &[char], from: usize, to: usize) -> (r: Vec<char>)
    requires
        from <= to <= v@.len(),
    ensures
        r@ == v@.subrange(from as int, to as int),
{
    let mut r: Vec<char> = Vec::new();
    let mut i = from;
    while i < to
        invariant
            from <= i <= to <= v@.len(),
            r@ == v@.subrange(from as int, i as int),
        decreases to - i,
    {
        r.push(v[i]);
        assert(v@.subrange(from as int, i as int).push(v@[i as int]) =~= v@.subrange(
            from as int,
            i + 1,
        ));
        i += 1;
    }
    r
}

/// Whether `a` and `b` hold the same characters.
pub fn chars_eq(a: &[char], b: &[char]) -> (r: bool)
    ensures
        r == (a@ == b@),
{
    if a.len() != b.len() {
        return false;
    }
    let mut i: usize = 0;
    while i < a.len()
        invariant
            a@.len() == b@.len(),
            i <= a@.len(),
            forall|j: int| 0 <= j < i ==> a@[j] == b@[j],
        decreases a@.len() - i,
    {
        if a[i] != b[i] {
            return false;
        }
        i += 1;
    }
    assert(a@ =~= b@);
    true
}

// ---------------------------------------------------------------------------
// White space and trimming
// ---------------------------------------------------------------------------

/// Unicode `White_Space`, the set that `char::is_whitespace` tests.
pub open spec fn is_white_space(c: char) -> bool {
    let u = c as u32;
    ||| 9 <= u <= 13
    ||| u == 32
    ||| u == 0x85
    ||| u == 0xA0
    ||| u == 0x1680
    ||| 0x2000 <= u <= 0x200A
    ||| u == 0x2028
    ||| u == 0x2029
    ||| u == 0x202F
    ||| u == 0x205F
    ||| u == 0x3000
}

/// `s` without its leading white space (`str::trim_start`).
pub open spec fn trim_start(s: Seq<char>) -> Seq<char>
    decreases s.len(),
{
    if s.len() > 0 && is_white_space(s[0]) {
        trim_start(s.drop_first())
    } else {
        s
    }
}

/// `s` without its trailing white space (`str::trim_end`).
pub open spec fn trim_end(s: Seq<char>) -> Seq<char>
    decreases s.len(),
{
    if s.len() > 0 && is_white_space(s.last()) {
        trim_end(s.drop_last())
    } else {
        s
    }
}

/// `s` without leading and trailing white space (`str::trim`).
pub open spec fn trim(s: Seq<char>) -> Seq<char> {
    trim_end(trim_start(s))
}

pub proof fn lemma_trim_start_is_suffix(s: Seq<char>)
    ensures
        exists|i: int| 0 <= i <= s.len() && trim_start(s) == s.skip(i),
    decreases s.len(),
{
    if s.len() > 0 && is_white_space(s[0]) {
        lemma_trim_start_is_suffix(s.drop_first());
        let i = choose|i: int|
            0 <= i <= s.drop_first().len() && trim_start(s.drop_first()) == s.drop_first().skip(i);
        assert(s.drop_first().skip(i) =~= s.skip(i + 1));
    } else {
        assert(s.skip(0) =~= s);
    }
}

pub proof fn lemma_trim_end_is_prefix(s: Seq<char>)
    ensures
        exists|j: int| 0 <= j <= s.len() && trim_end(s) == s.take(j),
    decreases s.len(),
{
    if s.len() > 0 && is_white_space(s.last()) {
        lemma_trim_end_is_prefix(s.drop_last());
        let j = choose|j: int|
            0 <= j <= s.drop_last().len() && trim_end(s.drop_last()) == s.drop_last().take(j);
        assert(s.drop_last().take(j) =~= s.take(j));
    } else {
        assert(s.take(s.len() as int) =~= s);
    }
}

/// Trimming keeps a contiguous run of the characters.
pub proof fn lemma_trim_is_infix(s: Seq<char>)
    ensures
        exists|a: int, b: int| 0 <= a <= b <= s.len() && trim(s) == s.subrange(a, b),
{
    lemma_trim_start_is_suffix(s);
    let i = choose|i: int| 0 <= i <= s.len() && trim_start(s) == s.skip(i);
    lemma_trim_end_is_prefix(s.skip(i));
    let j = choose|j: int| 0 <= j <= s.skip(i).len() && trim_end(s.skip(i)) == s.skip(i).take(j);
    assert(s.skip(i).take(j) =~= s.subrange(i, i + j));
}

/// Whether `c` is Unicode white space.
pub fn is_ws(c: char) -> (r: bool)
    ensures
        r == is_white_space(c),
{
    let u = c as u32;
    (9 <= u && u <= 13) || u == 32 || u == 0x85 || u == 0xA0 || u == 0x1680 || (0x2000 <= u && u
        <= 0x200A) || u == 0x2028 || u == 0x2029 || u == 0x202F || u == 0x205F || u == 0x3000
}

/// Index of the first character of `v` that is not white space (or its length).
pub fn skip_ws(v: &[char]) -> (i: usize)
    ensures
        i <= v@.len(),
        trim_start(v@) == v@.skip(i as int),
        forall|j: int| 0 <= j < i ==> is_white_space(#[trigger] v@[j]),
        i < v@.len() ==> !is_white_space(v@[i as int]),
{
    let mut i: usize = 0;
    assert(v@.skip(0) =~= v@);
    while i < v.len() && is_ws(v[i])
        invariant
            i <= v@.len(),
            trim_start(v@) == trim_start(v@.skip(i as int)),
            forall|j: int| 0 <= j < i ==> is_white_space(#[trigger] v@[j]),
        decreases v@.len() - i,
    {
        assert(v@.skip(i as int).drop_first() =~= v@.skip(i + 1));
        i += 1;
    }
    i
}

/// End of `v` once its trailing white space is dropped.
pub fn end_without_ws(v: &[char]) -> (j: usize)
    ensures
        j <= v@.len(),
        trim_end(v@) == v@.take(j as int),
{
    let mut j: usize = v.len();
    assert(v@.take(j as int) =~= v@);
    while j > 0 && is_ws(v[j - 1])
        invariant
            j <= v@.len(),
            trim_end(v@) == trim_end(v@.take(j as int)),
        decreases j,
    {
        assert(v@.take(j as int).drop_last() =~= v@.take(j - 1));
        j -= 1;
    }
    j
}

/// `v` without leading and trailing white space.
pub fn trim_chars(v: &[char]) -> (r: Vec<char>)
    ensures
        r@ == trim(v@),
{
    let i = skip_ws(v);
    let rest = sub_chars(v, i, v.len());
    assert(rest@ =~= v@.skip(i as int));
    let j = end_without_ws(&rest);
    sub_chars(&rest, 0, j)
}

// ---------------------------------------------------------------------------
// ASCII case
// ---------------------------------------------------------------------------

/// `c` with ASCII upper case letters mapped to lower case (`char::to_ascii_lowercase`).
pub open spec fn ascii_lower(c: char) -> char {
    if 'A' <= c <= 'Z' {
        ((c as u32) + 32) as char
    } else {
        c
    }
}

/// `c` with ASCII lower case letters mapped to upper case (`char::to_ascii_uppercase`).
pub open spec fn ascii_upper(c: char) -> char {
    if 'a' <= c <= 'z' {
        ((c as u32) - 32) as char
    } else {
        c
    }
}

/// ASCII letters and digits (`char::is_ascii_alphanumeric`).
pub open spec fn is_ascii_alnum(c: char) -> bool {
    ('0' <= c <= '9') || ('A' <= c <= 'Z') || ('a' <= c <= 'z')
}

pub fn to_ascii_lower(c: char) -> (r: char)
    ensures
        r == ascii_lower(c),
{
    if 'A' <= c && c <= 'Z' {
        ((c as u8) + 32) as char
    } else {
        c
    }
}

pub fn to_ascii_upper(c: char) -> (r: char)
    ensures
        r == ascii_upper(c),
{
    if 'a' <= c && c <= 'z' {
        ((c as u8) - 32) as char
    } else {
        c
    }
}

/// `v` with every character passed through `ascii_lower` (`str::to_ascii_lowercase`).
pub fn lower_ascii_chars(v: &[char]) -> (r: Vec<char>)
    ensures
        r@ == v@.map_values(|c: char| ascii_lower(c)),
{
    let mut r: Vec<char> = Vec::new();
    let mut i: usize = 0;
    while i < v.len()
        invariant
            i <= v@.len(),
            r@ == v@.take(i as int).map_values(|c: char| ascii_lower(c)),
        decreases v@.len() - i,
    {
        r.push(to_ascii_lower(v[i]));
        assert(v@.take(i + 1).map_values(|c: char| ascii_lower(c)) =~= v@.take(
            i as int,
        ).map_values(|c: char| ascii_lower(c)).push(ascii_lower(v@[i as int])));
        i += 1;
    }
    assert(v@.take(v@.len() as int) =~= v@);
    r
}

// ---------------------------------------------------------------------------
// Searching
// ---------------------------------------------------------------------------

/// `p` occurs in `s` starting at index `i`.
pub open spec fn occurs_at(s: Seq<char>, p: Seq<char>, i: int) -> bool {
    0 <= i && i + p.len() <= s.len() && s.subrange(i, i + p.len()) == p
}

/// The first index at or after `from` where `p` occurs in `s`.
pub open spec fn find_from(s: Seq<char>, p: Seq<char>, from: int) -> Option<int>
    decreases s.len() + 1 - from,
{
    if from < 0 || from + p.len() > s.len() {
        None
    } else if occurs_at(s, p, from) {
        Some(from)
    } else {
        find_from(s, p, from + 1)
    }
}

/// The first index where `p` occurs in `s` (`str::find`).
pub open spec fn find(s: Seq<char>, p: Seq<char>) -> Option<int> {
    find_from(s, p, 0)
}

/// `p` occurs somewhere in `s` (`str::contains`).
pub open spec fn contains(s: Seq<char>, p: Seq<char>) -> bool {
    find(s, p) is Some
}

/// `s` starts with `p` (`str::starts_with`).
pub open spec fn starts_with(s: Seq<char>, p: Seq<char>) -> bool {
    p.len() <= s.len() && s.take(p.len() as int) == p
}

pub proof fn lemma_find_from_bounds(s: Seq<char>, p: Seq<char>, from: int)
    requires
        0 <= from,
    ensures
        find_from(s, p, from) matches Some(i) ==> from <= i && occurs_at(s, p, i) && forall|
            j: int,
        |
            from <= j < i ==> !occurs_at(s, p, j),
        find_from(s, p, from) is None ==> forall|j: int|
            from <= j ==> !occurs_at(s, p, j),
    decreases s.len() + 1 - from,
{
    if from + p.len() > s.len() {
    } else if occurs_at(s, p, from) {
    } else {
        lemma_find_from_bounds(s, p, from + 1);
    }
}

/// An occurrence with none before it is the one `find_from` gives.
pub proof fn lemma_first_occurrence_found(s: Seq<char>, p: Seq<char>, from: int, i: int)
    requires
        0 <= from <= i,
        occurs_at(s, p, i),
        forall|j: int| from <= j < i ==> !occurs_at(s, p, j),
    ensures
        find_from(s, p, from) == Some(i),
    decreases i - from,
{
    if from < i {
        lemma_first_occurrence_found(s, p, from + 1, i);
    }
}

/// Whether `p` occurs in `s` at index `i`.
pub fn occurs_at_exec(s: &[char], p: &[char], i: usize) -> (r: bool)
    ensures
        r == occurs_at(s@, p@, i as int),
{
    if i > s.len() || p.len() > s.len() - i {
        return false;
    }
    let slen = s.len();
    let mut k: usize = 0;
    while k < p.len()
        invariant
            slen == s@.len(),
            i + p@.len() <= s@.len(),
            k <= p@.len(),
            forall|m: int| 0 <= m < k ==> s@[i + m] == p@[m],
        decreases p@.len() - k,
    {
        if s[i + k] != p[k] {
            assert(s@.subrange(i as int, i + p@.len())[k as int] != p@[k as int]);
            return false;
        }
        k += 1;
    }
    assert(s@.subrange(i as int, i + p@.len()) =~= p@);
    true
}

/// The first index where `p` occurs in `s`.
pub fn find_chars(s: &[char], p: &[char]) -> (r: Option<usize>)
    ensures
        r matches Some(i) ==> find(s@, p@) == Some(i as int),
        r is None ==> find(s@, p@) is None,
{
    if p.len() > s.len() {
        return None;
    }
    let last = s.len() - p.len();
    let mut i: usize = 0;
    loop
        invariant
            i <= last,
            last + p@.len() == s@.len(),
            find(s@, p@) == find_from(s@, p@, i as int),
        decreases last - i,
    {
        if occurs_at_exec(s, p, i) {
            return Some(i);
        }
        if i == last {
            assert(find_from(s@, p@, i + 1) is None);
            return None;
        }
        i += 1;
    }
}

/// Whether `p` occurs in `s`.
pub fn contains_chars(s: &[char], p: &[char]) -> (r: bool)
    ensures
        r == contains(s@, p@),
{
    find_chars(s, p).is_some()
}

/// Whether `s` starts with `p`.
pub fn starts_with_chars(s: &[char], p: &[char]) -> (r: bool)
    ensures
        r == starts_with(s@, p@),
{
    let r = occurs_at_exec(s, p, 0);
    assert(s@.subrange(0, p@.len() as int) =~= s@.take(p@.len() as int));
    r
}

// ---------------------------------------------------------------------------
// Splitting
// ---------------------------------------------------------------------------

/// The pieces of `s` between occurrences of `sep` (`str::split` with a char pattern).
/// There is always at least one piece; `split_on("", sep)` is `[""]`.
pub open spec fn split_on(s: Seq<char>, sep: char) -> Seq<Seq<char>>
    decreases s.len(),
{
    if s.len() == 0 {
        seq![Seq::empty()]
    } else {
        let r = split_on(s.drop_last(), sep);
        if s.last() == sep {
            r.push(Seq::empty())
        } else {
            r.update(r.len() - 1, r.last().push(s.last()))
        }
    }
}

pub proof fn lemma_split_on_nonempty(s: Seq<char>, sep: char)
    ensures
        split_on(s, sep).len() >= 1,
    decreases s.len(),
{
    if s.len() > 0 {
        lemma_split_on_nonempty(s.drop_last(), sep);
    }
}

/// Unfolds `split_on` one character at the end.
pub proof fn lemma_split_on_push(s: Seq<char>, c: char, sep: char)
    ensures
        split_on(s, sep).len() >= 1,
        c == sep ==> split_on(s.push(c), sep) == split_on(s, sep).push(Seq::empty()),
        c != sep ==> split_on(s.push(c), sep) == split_on(s, sep).update(
            split_on(s, sep).len() - 1,
            split_on(s, sep).last().push(c),
        ),
{
    lemma_split_on_nonempty(s, sep);
    assert(s.push(c).drop_last() =~= s);
}

/// `l` without one trailing carriage return.
pub open spec fn strip_cr(l: Seq<char>) -> Seq<char> {
    if l.len() > 0 && l.last() == '\r' {
        l.drop_last()
    } else {
        l
    }
}

/// The lines of `s` as `str::lines` yields them: split at `\n`, a `\r` right
/// before a `\n` dropped, and no empty line after a final `\n`.
pub open spec fn lines_of(s: Seq<char>) -> Seq<Seq<char>> {
    let segs = split_on(s, '\n');
    let n = segs.len() as int;
    let k = if segs.last().len() == 0 {
        n - 1
    } else {
        n
    };
    Seq::new(k as nat, |i: int| if i < n - 1 { strip_cr(segs[i]) } else { segs[i] })
}

/// The elements of `ls` with `sep` between neighbours (`join`).
pub open spec fn join_with(ls: Seq<Seq<char>>, sep: char) -> Seq<char>
    decreases ls.len(),
{
    if ls.len() == 0 {
        Seq::empty()
    } else if ls.len() == 1 {
        ls[0]
    } else {
        join_with(ls.drop_last(), sep).push(sep) + ls.last()
    }
}

/// `s` holds no line break and no carriage return.
pub open spec fn one_line_text(s: Seq<char>) -> bool {
    forall|m: int| 0 <= m < s.len() ==> #[trigger] s[m] != '\n' && s[m] != '\r'
}

/// A text without the separator is one piece.
pub proof fn lemma_split_without_sep(b: Seq<char>, sep: char)
    requires
        forall|m: int| 0 <= m < b.len() ==> #[trigger] b[m] != sep,
    ensures
        split_on(b, sep) == seq![b],
    decreases b.len(),
{
    if b.len() > 0 {
        let init = b.drop_last();
        assert forall|m: int| 0 <= m < init.len() implies #[trigger] init[m] != sep by {
            assert(init[m] == b[m]);
        }
        lemma_split_without_sep(init, sep);
        let c = b.last();
        assert(b[b.len() - 1] != sep);
        lemma_split_on_push(init, c, sep);
        assert(init.push(c) =~= b);
        let r = split_on(init, sep);
        assert(r == seq![init]);
        assert(split_on(init.push(c), sep) == r.update(r.len() - 1, r.last().push(c)));
        assert(r.update(r.len() - 1, r.last().push(c)) =~= seq![b]);
    } else {
        assert(b =~= Seq::<char>::empty());
    }
}

/// Splitting `a`, a separator and a piece without separators gives the pieces
/// of `a` and then that piece.
pub proof fn lemma_split_append(a: Seq<char>, b: Seq<char>, sep: char)
    requires
        forall|m: int| 0 <= m < b.len() ==> #[trigger] b[m] != sep,
    ensures
        split_on(a.push(sep) + b, sep) == split_on(a, sep).push(b),
    decreases b.len(),
{
    if b.len() == 0 {
        assert(a.push(sep) + b =~= a.push(sep));
        assert(b =~= Seq::<char>::empty());
        lemma_split_on_push(a, sep, sep);
    } else {
        let init = b.drop_last();
        assert forall|m: int| 0 <= m < init.len() implies #[trigger] init[m] != sep by {
            assert(init[m] == b[m]);
        }
        lemma_split_append(a, init, sep);
        let c = b.last();
        assert(b[b.len() - 1] != sep);
        assert(a.push(sep) + b =~= (a.push(sep) + init).push(c));
        lemma_split_on_push(a.push(sep) + init, c, sep);
        let r = split_on(a, sep).push(init);
        assert(split_on(a.push(sep) + init, sep) == r);
        assert(r.last() == init);
        assert(init.push(c) =~= b);
        assert(r.update(r.len() - 1, r.last().push(c)) =~= split_on(a, sep).push(b));
    }
}

/// Joining lines without separators and splitting again gives the lines back.
pub proof fn lemma_split_join(ls: Seq<Seq<char>>, sep: char)
    requires
        ls.len() >= 1,
        forall|i: int, m: int| 0 <= i < ls.len() && 0 <= m < ls[i].len() ==> #[trigger] ls[i][m]
            != sep,
    ensures
        split_on(join_with(ls, sep), sep) == ls,
    decreases ls.len(),
{
    if ls.len() == 1 {
        assert forall|m: int| 0 <= m < ls[0].len() implies #[trigger] ls[0][m] != sep by {}
        lemma_split_without_sep(ls[0], sep);
        assert(seq![ls[0]] =~= ls);
    } else {
        let init = ls.drop_last();
        assert forall|i: int, m: int| 0 <= i < init.len() && 0 <= m < init[i].len() implies #[trigger] init[i][m]
            != sep by {
            assert(init[i] == ls[i]);
        }
        lemma_split_join(init, sep);
        let last = ls.last();
        assert forall|m: int| 0 <= m < last.len() implies #[trigger] last[m] != sep by {
            assert(ls[ls.len() - 1][m] != sep);
        }
        lemma_split_append(join_with(init, sep), last, sep);
        assert(init.push(last) =~= ls);
    }
}

/// Lines without line breaks or carriage returns, joined with `\n` and ended
/// with one, read back as the same lines.
pub proof fn lemma_lines_of_joined(ls: Seq<Seq<char>>)
    requires
        ls.len() >= 1,
        forall|i: int| 0 <= i < ls.len() ==> one_line_text(#[trigger] ls[i]),
    ensures
        lines_of(join_with(ls, '\n').push('\n')) == ls,
{
    assert forall|i: int, m: int| 0 <= i < ls.len() && 0 <= m < ls[i].len() implies #[trigger] ls[i][m]
        != '\n' by {
        assert(one_line_text(ls[i]));
    }
    lemma_split_join(ls, '\n');
    lemma_split_append(join_with(ls, '\n'), Seq::empty(), '\n');
    assert(join_with(ls, '\n').push('\n') + Seq::<char>::empty() =~= join_with(ls, '\n').push('\n'));
    let segs = ls.push(Seq::empty());
    assert forall|i: int| 0 <= i < ls.len() implies strip_cr(#[trigger] segs[i]) == ls[i] by {
        assert(segs[i] == ls[i]);
        assert(one_line_text(ls[i]));
        if ls[i].len() > 0 {
            assert(ls[i][ls[i].len() - 1] != '\r');
        }
    }
    assert(lines_of(join_with(ls, '\n').push('\n')) =~= ls);
}

/// The lines of a text without carriage returns hold no line break or carriage return.
pub proof fn lemma_lines_of_one_line(s: Seq<char>)
    requires
        forall|m: int| 0 <= m < s.len() ==> #[trigger] s[m] != '\r',
    ensures
        forall|i: int| 0 <= i < lines_of(s).len() ==> one_line_text(#[trigger] lines_of(s)[i]),
{
    lemma_split_one_line(s);
    lemma_split_on_nonempty(s, '\n');
    let segs = split_on(s, '\n');
    assert forall|i: int| 0 <= i < lines_of(s).len() implies one_line_text(
        #[trigger] lines_of(s)[i],
    ) by {
        assert(one_line_text(segs[i]));
        let l = segs[i];
        if l.len() > 0 && l.last() == '\r' {
            assert forall|m: int| 0 <= m < l.drop_last().len() implies #[trigger] l.drop_last()[m]
                != '\n' && l.drop_last()[m] != '\r' by {
                assert(l.drop_last()[m] == l[m]);
            }
        }
    }
}

proof fn lemma_split_one_line(s: Seq<char>)
    requires
        forall|m: int| 0 <= m < s.len() ==> #[trigger] s[m] != '\r',
    ensures
        forall|i: int| 0 <= i < split_on(s, '\n').len() ==> one_line_text(
            #[trigger] split_on(s, '\n')[i],
        ),
    decreases s.len(),
{
    if s.len() > 0 {
        let init = s.drop_last();
        assert forall|m: int| 0 <= m < init.len() implies #[trigger] init[m] != '\r' by {
            assert(init[m] == s[m]);
        }
        lemma_split_one_line(init);
        lemma_split_on_nonempty(init, '\n');
        let c = s.last();
        assert(s[s.len() - 1] != '\r');
        let r = split_on(init, '\n');
        assert(init.push(c) =~= s);
        lemma_split_on_push(init, c, '\n');
        if c != '\n' {
            let l = r.last().push(c);
            assert(one_line_text(r[r.len() - 1]));
            assert forall|m: int| 0 <= m < l.len() implies #[trigger] l[m] != '\n' && l[m] != '\r' by {
                if m < r.last().len() {
                    assert(l[m] == r.last()[m]);
                }
            }
        }
    }
}

fn strip_cr_exec(l: Vec<char>) -> (r: Vec<char>)
    ensures
        r@ == strip_cr(l@),
{
    let mut l = l;
    if l.len() > 0 && l[l.len() - 1] == '\r' {
        l.pop();
    }
    l
}

/// The lines of `s` (`str::lines`).
pub fn lines(s: &str) -> (r: Vec<Vec<char>>)
    ensures
        char_views(r@) == lines_of(s@),
{
    let v = chars_of(s);
    let mut out: Vec<Vec<char>> = Vec::new();
    let mut cur: Vec<char> = Vec::new();
    let mut i: usize = 0;
    assert(v@.take(0) =~= Seq::<char>::empty());
    while i < v.len()
        invariant
            v@ == s@,
            i <= v@.len(),
            split_on(v@.take(i as int), '\n').len() >= 1,
            cur@ == split_on(v@.take(i as int), '\n').last(),
            char_views(out@) =~= Seq::new(
                (split_on(v@.take(i as int), '\n').len() - 1) as nat,
                |j: int| strip_cr(split_on(v@.take(i as int), '\n')[j]),
            ),
        decreases v@.len() - i,
    {
        let ghost pre = v@.take(i as int);
        let ghost segs = split_on(pre, '\n');
        let ghost out0 = out@;
        proof {
            lemma_split_on_push(pre, v@[i as int], '\n');
            assert(v@.take(i + 1) =~= pre.push(v@[i as int]));
        }
        if v[i] == '\n' {
            let done = strip_cr_exec(cur);
            out.push(done);
            cur = Vec::new();
            proof {
                let segs2 = split_on(v@.take(i + 1), '\n');
                assert(segs2 == segs.push(Seq::empty()));
                assert(char_views(out@) =~= char_views(out0).push(strip_cr(segs.last())));
                assert(char_views(out@) =~= Seq::new(
                    (segs2.len() - 1) as nat,
                    |j: int| strip_cr(segs2[j]),
                ));
            }
        } else {
            cur.push(v[i]);
            proof {
                let segs2 = split_on(v@.take(i + 1), '\n');
                assert(char_views(out@) =~= Seq::new(
                    (segs2.len() - 1) as nat,
                    |j: int| strip_cr(segs2[j]),
                ));
            }
        }
        i += 1;
    }
    assert(v@.take(v@.len() as int) =~= v@);
    let ghost segs = split_on(v@, '\n');
    let ghost out0 = out@;
    if cur.len() > 0 {
        out.push(cur);
        assert(char_views(out@) =~= char_views(out0).push(segs.last()));
    }
    assert(char_views(out@) =~= lines_of(s@));
    out
}

/// Joins `ls` with `sep` and appends it to `s`.
pub fn push_joined(s: &mut String, ls: &Vec<Vec<char>>, sep: char)
    ensures
        final(s)@ == old(s)@ + join_with(char_views(ls@), sep),
{
    let ghost start = s@;
    let mut i: usize = 0;
    while i < ls.len()
        invariant
            i <= ls@.len(),
            s@ == start + join_with(char_views(ls@.take(i as int)), sep),
        decreases ls@.len() - i,
    {
        let ghost before = s@;
        if i > 0 {
            push_char(s, sep);
        }
        push_chars(s, &ls[i]);
        proof {
            let pre = char_views(ls@.take(i as int));
            let next = char_views(ls@.take(i + 1));
            assert(next =~= pre.push(ls@[i as int]@));
            assert(next.drop_last() =~= pre);
            assert(s@ =~= start + join_with(next, sep));
        }
        i += 1;
    }
    assert(ls@.take(ls@.len() as int) =~= ls@);
}

// ---------------------------------------------------------------------------
// Decimal numbers
// ---------------------------------------------------------------------------

/// The character of decimal digit `d`.
pub open spec fn digit(d: nat) -> char {
    ((48 + d) as u32) as char
}

/// Decimal notation of `n`, without leading zeros (how `Display` prints unsigned integers).
pub open spec fn decimal(n: nat) -> Seq<char>
    decreases n,
{
    if n < 10 {
        seq![digit(n)]
    } else {
        decimal(n / 10).push(digit(n % 10))
    }
}

/// Decimal notation of a signed number (how `Display` prints signed integers).
pub open spec fn signed_decimal(n: int) -> Seq<char> {
    if n < 0 {
        seq!['-'] + decimal((-n) as nat)
    } else {
        decimal(n as nat)
    }
}

/// Decimal notation padded with a zero to at least two digits (`{:02}`).
pub open spec fn two_digits(n: nat) -> Seq<char> {
    if n < 10 {
        seq!['0'] + decimal(n)
    } else {
        decimal(n)
    }
}

fn digit_exec(d: u64) -> (c: char)
    requires
        d < 10,
    ensures
        c == digit(d as nat),
{
    (48 + d as u8) as char
}

/// Appends the decimal notation of `n` to `s`.
pub fn push_decimal(s: &mut String, n: u64)
    ensures
        final(s)@ == old(s)@ + decimal(n as nat),
    decreases n,
{
    if n >= 10 {
        push_decimal(s, n / 10);
    }
    push_char(s, digit_exec(n % 10));
}

/// Appends the decimal notation of the signed `n` to `s`.
pub fn push_signed_decimal(s: &mut String, n: i64)
    ensures
        final(s)@ == old(s)@ + signed_decimal(n as int),
{
    if n < 0 {
        push_char(s, '-');
        let m: u64 = if n == i64::MIN {
            0x8000_0000_0000_0000u64
        } else {
            (-n) as u64
        };
        push_decimal(s, m);
    } else {
        push_decimal(s, n as u64);
    }
}

/// Appends `n` padded to two digits.
pub fn push_two_digits(s: &mut String, n: u64)
    ensures
        final(s)@ == old(s)@ + two_digits(n as nat),
{
    if n < 10 {
        push_char(s, '0');
    }
    push_decimal(s, n);
}

} // verus!
