//! Plasma global-shortcut handling: chord parsing, launcher text and
//! `kglobalshortcutsrc` patching.
use vstd::prelude::*;
use crate::text::{
    occurs_at, contains, contains_chars, find, find_chars, lemma_find_from_bounds,
    lemma_first_occurrence_found, lemma_lines_of_joined, lemma_lines_of_one_line, one_line_text,
    push_chars,
    push_signed_decimal, signed_decimal, char_views, join_with, lines, lines_of, push_char, push_joined, skip_ws, starts_with,
    starts_with_chars, sub_chars, trim_start, trim_end, lemma_trim_end_is_prefix, ascii_lower, ascii_upper, chars_eq, chars_of, is_ascii_alnum, lemma_split_on_push,
    lower_ascii_chars, push_str, split_on, string_of, string_views, to_ascii_upper, trim, trim_chars,
};

verus! {

broadcast use vstd::string::group_string_axioms;

// ---------------------------------------------------------------------------
// Chord parsing
// ---------------------------------------------------------------------------

/// Qt modifier bit for Meta.
pub const META_BIT: i32 = 0x1000_0000;
/// Qt modifier bit for Ctrl.
pub const CTRL_BIT: i32 = 0x0400_0000;
/// Qt modifier bit for Alt.
pub const ALT_BIT: i32 = 0x0800_0000;
/// Qt modifier bit for Shift.
pub const SHIFT_BIT: i32 = 0x0200_0000;

/// Why a chord was refused.
#[derive(Clone, Copy, Debug, PartialEq, Eq, Structural)]
pub enum ShortcutErrorKind {
    /// A `+`-separated part is empty.
    Invalid,
    /// A second key follows the first.
    MultipleKeys,
    /// The key is an ASCII character but not a letter or digit.
    KeyNotAlnum,
    /// A part is neither a known modifier nor a single ASCII character.
    Unsupported,
    /// No modifier was given.
    NoModifier,
    /// No key was given.
    NoKey,
}

/// A refused chord: the reason and the text it is about (the whole chord for
/// `Invalid`, the offending part for `Unsupported`, empty otherwise).
#[derive(Clone, Debug)]
pub struct ShortcutError {
    pub kind: ShortcutErrorKind,
    pub detail: String,
}

/// The modifiers and the key collected so far.
#[derive(Clone, Copy, Debug, PartialEq, Eq, Structural)]
pub struct Chord {
    pub meta: bool,
    pub ctrl: bool,
    pub alt: bool,
    pub shift: bool,
    pub key: Option<char>,
}

/// What a single trimmed part of a chord is.
pub enum PartClass {
    Empty,
    Meta,
    Ctrl,
    Alt,
    Shift,
    /// One ASCII character (maybe not a letter or digit).
    Single(char),
    Unsupported,
}

pub open spec fn lower(s: Seq<char>) -> Seq<char> {
    s.map_values(|c: char| ascii_lower(c))
}

/// Classifies one part of a chord, the way the modifier names are matched
/// case-insensitively after trimming.
pub open spec fn classify_part(p: Seq<char>) -> PartClass {
    let t = trim(p);
    let l = lower(t);
    if t.len() == 0 {
        PartClass::Empty
    } else if l == seq!['m', 'e', 't', 'a'] || l == seq!['s', 'u', 'p', 'e', 'r'] || l == seq![
        'w',
        'i',
        'n',
    ] || l == seq!['m', 'o', 'd', '4'] {
        PartClass::Meta
    } else if l == seq!['c', 't', 'r', 'l'] || l == seq!['c', 'o', 'n', 't', 'r', 'o', 'l'] {
        PartClass::Ctrl
    } else if l == seq!['a', 'l', 't'] {
        PartClass::Alt
    } else if l == seq!['s', 'h', 'i', 'f', 't'] {
        PartClass::Shift
    } else if t.len() == 1 && (t[0] as u32) < 128 {
        PartClass::Single(t[0])
    } else {
        PartClass::Unsupported
    }
}

pub open spec fn no_chord() -> Chord {
    Chord { meta: false, ctrl: false, alt: false, shift: false, key: None }
}

/// Adds one part to the chord built so far; the first refused part decides the error.
pub open spec fn chord_step(
    prev: Result<Chord, (ShortcutErrorKind, Seq<char>)>,
    part: Seq<char>,
    whole: Seq<char>,
) -> Result<Chord, (ShortcutErrorKind, Seq<char>)> {
    match prev {
        Err(e) => Err(e),
        Ok(c) => match classify_part(part) {
            PartClass::Empty => Err((ShortcutErrorKind::Invalid, whole)),
            PartClass::Meta => Ok(Chord { meta: true, ..c }),
            PartClass::Ctrl => Ok(Chord { ctrl: true, ..c }),
            PartClass::Alt => Ok(Chord { alt: true, ..c }),
            PartClass::Shift => Ok(Chord { shift: true, ..c }),
            PartClass::Single(k) => if c.key is Some {
                Err((ShortcutErrorKind::MultipleKeys, Seq::empty()))
            } else if !is_ascii_alnum(k) {
                Err((ShortcutErrorKind::KeyNotAlnum, Seq::empty()))
            } else {
                Ok(Chord { key: Some(ascii_upper(k)), ..c })
            },
            PartClass::Unsupported => Err((ShortcutErrorKind::Unsupported, trim(part))),
        },
    }
}

/// Folds `chord_step` over the parts, left to right.
pub open spec fn chord_of_parts(parts: Seq<Seq<char>>, whole: Seq<char>) -> Result<
    Chord,
    (ShortcutErrorKind, Seq<char>),
>
    decreases parts.len(),
{
    if parts.len() == 0 {
        Ok(no_chord())
    } else {
        chord_step(chord_of_parts(parts.drop_last(), whole), parts.last(), whole)
    }
}

/// The Qt modifier bits of a chord.
pub open spec fn modifier_bits(c: Chord) -> int {
    (if c.meta { META_BIT as int } else { 0 }) + (if c.ctrl { CTRL_BIT as int } else { 0 }) + (
    if c.alt { ALT_BIT as int } else { 0 }) + (if c.shift { SHIFT_BIT as int } else { 0 })
}

pub open spec fn has_modifier(c: Chord) -> bool {
    c.meta || c.ctrl || c.alt || c.shift
}

/// What `parse_qt_shortcut` gives for a chord text: the single KGlobalAccel key
/// code (modifier bits plus the upper-cased key), or the first error.
pub open spec fn qt_shortcut(s: Seq<char>) -> Result<Seq<i32>, (ShortcutErrorKind, Seq<char>)> {
    match chord_of_parts(split_on(s, '+'), s) {
        Err(e) => Err(e),
        Ok(c) => if !has_modifier(c) {
            Err((ShortcutErrorKind::NoModifier, Seq::empty()))
        } else {
            match c.key {
                None => Err((ShortcutErrorKind::NoKey, Seq::empty())),
                Some(k) => Ok(seq![(modifier_bits(c) + (k as u32)) as i32]),
            }
        },
    }
}

/// The view of a parse result, comparable with `qt_shortcut`.
pub open spec fn shortcut_result_view(r: Result<Vec<i32>, ShortcutError>) -> Result<
    Seq<i32>,
    (ShortcutErrorKind, Seq<char>),
> {
    match r {
        Ok(v) => Ok(v@),
        Err(e) => Err((e.kind, e.detail@)),
    }
}

fn classify_part_exec(p: &[char]) -> (r: (PartClass, Vec<char>))
    ensures
        r.0 == classify_part(p@),
        r.1@ == trim(p@),
{
    let t = trim_chars(p);
    if t.len() == 0 {
        return (PartClass::Empty, t);
    }
    let l = lower_ascii_chars(&t);
    assert(l@ == lower(t@));
    let meta = ['m', 'e', 't', 'a'];
    let sup = ['s', 'u', 'p', 'e', 'r'];
    let win = ['w', 'i', 'n'];
    let mod4 = ['m', 'o', 'd', '4'];
    let ctrl = ['c', 't', 'r', 'l'];
    let control = ['c', 'o', 'n', 't', 'r', 'o', 'l'];
    let alt = ['a', 'l', 't'];
    let shift = ['s', 'h', 'i', 'f', 't'];
    assert(meta@ == seq!['m', 'e', 't', 'a']);
    assert(sup@ == seq!['s', 'u', 'p', 'e', 'r']);
    assert(win@ == seq!['w', 'i', 'n']);
    assert(mod4@ == seq!['m', 'o', 'd', '4']);
    assert(ctrl@ == seq!['c', 't', 'r', 'l']);
    assert(control@ == seq!['c', 'o', 'n', 't', 'r', 'o', 'l']);
    assert(alt@ == seq!['a', 'l', 't']);
    assert(shift@ == seq!['s', 'h', 'i', 'f', 't']);
    if chars_eq(&l, &meta) || chars_eq(&l, &sup) || chars_eq(&l, &win) || chars_eq(&l, &mod4) {
        (PartClass::Meta, t)
    } else if chars_eq(&l, &ctrl) || chars_eq(&l, &control) {
        (PartClass::Ctrl, t)
    } else if chars_eq(&l, &alt) {
        (PartClass::Alt, t)
    } else if chars_eq(&l, &shift) {
        (PartClass::Shift, t)
    } else if t.len() == 1 && (t[0] as u32) < 128 {
        (PartClass::Single(t[0]), t)
    } else {
        (PartClass::Unsupported, t)
    }
}

/// The view of a partial chord, comparable with `chord_of_parts`.
pub open spec fn chord_result_view(r: Result<Chord, ShortcutError>) -> Result<
    Chord,
    (ShortcutErrorKind, Seq<char>),
> {
    match r {
        Ok(c) => Ok(c),
        Err(e) => Err((e.kind, e.detail@)),
    }
}

fn chord_step_exec(c: Chord, part: &[char], whole: &str) -> (r: Result<Chord, ShortcutError>)
    ensures
        chord_result_view(r) == chord_step(Ok(c), part@, whole@),
{
    let (class, t) = classify_part_exec(part);
    match class {
        PartClass::Empty => Err(
            ShortcutError { kind: ShortcutErrorKind::Invalid, detail: whole.to_owned() },
        ),
        PartClass::Meta => Ok(Chord { meta: true, ..c }),
        PartClass::Ctrl => Ok(Chord { ctrl: true, ..c }),
        PartClass::Alt => Ok(Chord { alt: true, ..c }),
        PartClass::Shift => Ok(Chord { shift: true, ..c }),
        PartClass::Single(k) => {
            if c.key.is_some() {
                Err(ShortcutError { kind: ShortcutErrorKind::MultipleKeys, detail: String::new() })
            } else if !(('0' <= k && k <= '9') || ('A' <= k && k <= 'Z') || ('a' <= k && k
                <= 'z')) {
                Err(ShortcutError { kind: ShortcutErrorKind::KeyNotAlnum, detail: String::new() })
            } else {
                Ok(Chord { key: Some(to_ascii_upper(k)), ..c })
            }
        },
        PartClass::Unsupported => Err(
            ShortcutError { kind: ShortcutErrorKind::Unsupported, detail: string_of(&t) },
        ),
    }
}

fn add_part(st: Result<Chord, ShortcutError>, part: &[char], whole: &str) -> (r: Result<
    Chord,
    ShortcutError,
>)
    ensures
        chord_result_view(r) == chord_step(chord_result_view(st), part@, whole@),
{
    match st {
        Ok(c) => chord_step_exec(c, part, whole),
        Err(e) => Err(e),
    }
}

/// Every key a chord collects is an upper-cased ASCII letter or digit.
proof fn lemma_chord_key_alnum(parts: Seq<Seq<char>>, whole: Seq<char>)
    ensures
        chord_of_parts(parts, whole) matches Ok(c) ==> (c.key matches Some(k) ==> is_ascii_alnum(
            k,
        ) && (k as u32) < 128 && ascii_upper(k) == k),
    decreases parts.len(),
{
    if parts.len() > 0 {
        lemma_chord_key_alnum(parts.drop_last(), whole);
    }
}

/// Qt key code of a chord such as `Meta+Shift+V`: modifier bits plus the
/// upper-cased ASCII letter or digit, as the one-element key list KGlobalAccel takes.
pub fn parse_qt_shortcut(shortcut: &str) -> (r: Result<Vec<i32>, ShortcutError>)
    ensures
        shortcut_result_view(r) == qt_shortcut(shortcut@),
{
    let s = chars_of(shortcut);
    let mut st: Result<Chord, ShortcutError> = Ok(
        Chord { meta: false, ctrl: false, alt: false, shift: false, key: None },
    );
    let mut cur: Vec<char> = Vec::new();
    let mut i: usize = 0;
    proof {
        assert(s@.take(0) =~= Seq::<char>::empty());
    }
    while i < s.len()
        invariant
            s@ == shortcut@,
            i <= s@.len(),
            split_on(s@.take(i as int), '+').len() >= 1,
            cur@ == split_on(s@.take(i as int), '+').last(),
            chord_of_parts(split_on(s@.take(i as int), '+').drop_last(), shortcut@)
                == chord_result_view(st),
        decreases s@.len() - i,
    {
        let ghost pre = s@.take(i as int);
        let ghost parts = split_on(pre, '+');
        proof {
            lemma_split_on_push(pre, s@[i as int], '+');
            assert(s@.take(i + 1) =~= pre.push(s@[i as int]));
        }
        if s[i] == '+' {
            assert(split_on(s@.take(i + 1), '+').drop_last() =~= parts);
            assert(parts =~= parts.drop_last().push(parts.last()));
            st = add_part(st, &cur, shortcut);
            cur = Vec::new();
        } else {
            cur.push(s[i]);
            assert(split_on(s@.take(i + 1), '+').drop_last() =~= parts.drop_last());
        }
        i += 1;
    }
    assert(s@.take(s@.len() as int) =~= s@);
    let ghost parts = split_on(s@, '+');
    assert(parts =~= parts.drop_last().push(parts.last()));
    let c = match add_part(st, &cur, shortcut) {
        Ok(c) => c,
        Err(e) => return Err(e),
    };
    proof {
        lemma_chord_key_alnum(parts, shortcut@);
    }
    if !(c.meta || c.ctrl || c.alt || c.shift) {
        return Err(ShortcutError { kind: ShortcutErrorKind::NoModifier, detail: String::new() });
    }
    match c.key {
        None => Err(ShortcutError { kind: ShortcutErrorKind::NoKey, detail: String::new() }),
        Some(k) => {
            let mut code: i32 = k as u32 as i32;
            if c.meta {
                code = code + META_BIT;
            }
            if c.ctrl {
                code = code + CTRL_BIT;
            }
            if c.alt {
                code = code + ALT_BIT;
            }
            if c.shift {
                code = code + SHIFT_BIT;
            }
            let mut v: Vec<i32> = Vec::new();
            v.push(code);
            Ok(v)
        },
    }
}

impl ShortcutError {
    /// The text shown to the user for this error.
    pub fn message(&self) -> (m: String)
        ensures
            m@ == shortcut_error_text(self.kind, self.detail@),
    {
        let mut m = String::new();
        match self.kind {
            ShortcutErrorKind::Invalid => {
                push_str(&mut m, "invalid shortcut `");
                push_str(&mut m, self.detail.as_str());
                push_str(&mut m, "`");
            },
            ShortcutErrorKind::MultipleKeys | ShortcutErrorKind::NoKey => {
                push_str(&mut m, "shortcut must contain exactly one key");
            },
            ShortcutErrorKind::KeyNotAlnum => {
                push_str(&mut m, "shortcut key must be an ASCII letter or digit");
            },
            ShortcutErrorKind::Unsupported => {
                push_str(&mut m, "unsupported shortcut part `");
                push_str(&mut m, self.detail.as_str());
                push_str(&mut m, "`; use modifiers plus one ASCII letter or digit");
            },
            ShortcutErrorKind::NoModifier => {
                push_str(&mut m, "shortcut must contain at least one modifier");
            },
        }
        m
    }
}

/// The message for a refused chord.
pub open spec fn shortcut_error_text(kind: ShortcutErrorKind, detail: Seq<char>) -> Seq<char> {
    match kind {
        ShortcutErrorKind::Invalid => "invalid shortcut `"@ + detail + "`"@,
        ShortcutErrorKind::MultipleKeys => "shortcut must contain exactly one key"@,
        ShortcutErrorKind::NoKey => "shortcut must contain exactly one key"@,
        ShortcutErrorKind::KeyNotAlnum => "shortcut key must be an ASCII letter or digit"@,
        ShortcutErrorKind::Unsupported => "unsupported shortcut part `"@ + detail
            + "`; use modifiers plus one ASCII letter or digit"@,
        ShortcutErrorKind::NoModifier => "shortcut must contain at least one modifier"@,
    }
}

// ---------------------------------------------------------------------------
// Conflict detection on `getGlobalShortcutsByKey` output
// ---------------------------------------------------------------------------

/// The launcher file name that identifies clipd's own action.
pub const DESKTOP_NAME: &'static str = "clipd-show.desktop";

/// Where the quoted-field scanner is.
#[derive(Clone, Copy, PartialEq, Eq, Structural)]
pub enum QuoteMode {
    Outside,
    Inside,
    Escaped,
}

/// Scanner state: the finished fields, the mode and the field being read.
pub open spec fn quote_step(
    st: (Seq<Seq<char>>, QuoteMode, Seq<char>),
    c: char,
) -> (Seq<Seq<char>>, QuoteMode, Seq<char>) {
    let (fields, mode, cur) = st;
    match mode {
        QuoteMode::Outside => if c == '\'' {
            (fields, QuoteMode::Inside, Seq::empty())
        } else {
            st
        },
        QuoteMode::Inside => if c == '\\' {
            (fields, QuoteMode::Escaped, cur)
        } else if c == '\'' {
            (fields.push(cur), QuoteMode::Outside, Seq::empty())
        } else {
            (fields, QuoteMode::Inside, cur.push(c))
        },
        QuoteMode::Escaped => (fields, QuoteMode::Inside, cur.push(c)),
    }
}

pub open spec fn quote_scan(s: Seq<char>) -> (Seq<Seq<char>>, QuoteMode, Seq<char>)
    decreases s.len(),
{
    if s.len() == 0 {
        (Seq::empty(), QuoteMode::Outside, Seq::empty())
    } else {
        quote_step(quote_scan(s.drop_last()), s.last())
    }
}

/// The single-quoted fields of `s`, where a backslash takes the next character
/// literally; a field still open at the end counts.
pub open spec fn quoted_fields_of(s: Seq<char>) -> Seq<Seq<char>> {
    let (fields, mode, cur) = quote_scan(s);
    if mode == QuoteMode::Outside {
        fields
    } else {
        fields.push(cur)
    }
}

/// `f` with a backslash before each character, as GVariant text escapes it.
pub open spec fn escaped(f: Seq<char>) -> Seq<char>
    decreases f.len(),
{
    if f.len() == 0 {
        Seq::empty()
    } else {
        escaped(f.drop_last()) + seq!['\\', f.last()]
    }
}

/// Inside a field, characters other than quotes and backslashes are read as they are.
proof fn lemma_scan_plain(x: Seq<char>, f: Seq<char>)
    requires
        quote_scan(x).1 == QuoteMode::Inside,
        forall|i: int| 0 <= i < f.len() ==> #[trigger] f[i] != '\'' && f[i] != '\\',
    ensures
        quote_scan(x + f) == (quote_scan(x).0, QuoteMode::Inside, quote_scan(x).2 + f),
    decreases f.len(),
{
    if f.len() == 0 {
        assert(x + f =~= x);
        assert(quote_scan(x).2 + f =~= quote_scan(x).2);
    } else {
        let g = f.drop_last();
        assert forall|i: int| 0 <= i < g.len() implies #[trigger] g[i] != '\'' && g[i] != '\\' by {
            assert(g[i] == f[i]);
        }
        lemma_scan_plain(x, g);
        assert(f[f.len() - 1] != '\'' && f[f.len() - 1] != '\\');
        assert((x + f).drop_last() =~= x + g);
        assert((quote_scan(x).2 + g).push(f.last()) =~= quote_scan(x).2 + f);
    }
}

/// Inside a field, each backslash hands on the character after it, whatever it is.
proof fn lemma_scan_escaped(x: Seq<char>, f: Seq<char>)
    requires
        quote_scan(x).1 == QuoteMode::Inside,
    ensures
        quote_scan(x + escaped(f)) == (quote_scan(x).0, QuoteMode::Inside, quote_scan(x).2 + f),
    decreases f.len(),
{
    if f.len() == 0 {
        assert(x + escaped(f) =~= x);
        assert(quote_scan(x).2 + f =~= quote_scan(x).2);
    } else {
        let g = f.drop_last();
        lemma_scan_escaped(x, g);
        let y = x + escaped(g);
        assert(x + escaped(f) =~= y.push('\\').push(f.last()));
        assert(y.push('\\').drop_last() =~= y);
        assert(y.push('\\').push(f.last()).drop_last() =~= y.push('\\'));
        assert(quote_scan(y.push('\\')) == quote_step(quote_scan(y), '\\'));
        assert(quote_scan(y.push('\\').push(f.last())) == quote_step(
            quote_scan(y.push('\\')),
            f.last(),
        ));
        assert((quote_scan(x).2 + g).push(f.last()) =~= quote_scan(x).2 + f);
    }
}

/// Outside a field, text without quotes is skipped.
proof fn lemma_scan_outside(x: Seq<char>, y: Seq<char>)
    requires
        quote_scan(x).1 == QuoteMode::Outside,
        forall|i: int| 0 <= i < y.len() ==> #[trigger] y[i] != '\'',
    ensures
        quote_scan(x + y) == quote_scan(x),
    decreases y.len(),
{
    if y.len() == 0 {
        assert(x + y =~= x);
    } else {
        let g = y.drop_last();
        assert forall|i: int| 0 <= i < g.len() implies #[trigger] g[i] != '\'' by {
            assert(g[i] == y[i]);
        }
        lemma_scan_outside(x, g);
        assert(y[y.len() - 1] != '\'');
        assert((x + y).drop_last() =~= x + g);
    }
}

/// A field written between single quotes reads back as one more field: as it
/// is when it holds no quote or backslash, and whatever it holds when each of
/// its characters is escaped with a backslash. Text between fields without
/// quotes is skipped.
pub proof fn lemma_quoted_field_reads_back(x: Seq<char>, gap: Seq<char>, f: Seq<char>)
    requires
        quote_scan(x).1 == QuoteMode::Outside,
        forall|i: int| 0 <= i < gap.len() ==> #[trigger] gap[i] != '\'',
    ensures
        (forall|i: int| 0 <= i < f.len() ==> #[trigger] f[i] != '\'' && f[i] != '\\')
            ==> quote_scan(x + gap + seq!['\''] + f + seq!['\'']) == (
            quote_scan(x).0.push(f),
            QuoteMode::Outside,
            Seq::<char>::empty(),
        ),
        quote_scan(x + gap + seq!['\''] + escaped(f) + seq!['\'']) == (
            quote_scan(x).0.push(f),
            QuoteMode::Outside,
            Seq::<char>::empty(),
        ),
{
    lemma_scan_outside(x, gap);
    let y = x + gap;
    let o = y + seq!['\''];
    assert(o.drop_last() =~= y);
    assert(quote_scan(o) == (quote_scan(x).0, QuoteMode::Inside, Seq::<char>::empty()));
    assert(Seq::<char>::empty() + f =~= f);
    if forall|i: int| 0 <= i < f.len() ==> #[trigger] f[i] != '\'' && f[i] != '\\' {
        lemma_scan_plain(o, f);
        assert((o + f).push('\'') =~= x + gap + seq!['\''] + f + seq!['\'']);
        assert((o + f).push('\'').drop_last() =~= o + f);
    }
    lemma_scan_escaped(o, f);
    assert((o + escaped(f)).push('\'') =~= x + gap + seq!['\''] + escaped(f) + seq!['\'']);
    assert((o + escaped(f)).push('\'').drop_last() =~= o + escaped(f));
}

/// The single-quoted fields of a GVariant text.
pub fn quoted_fields(text: &str) -> (r: Vec<String>)
    ensures
        string_views(r@) == quoted_fields_of(text@),
{
    let s = chars_of(text);
    let mut fields: Vec<String> = Vec::new();
    let mut mode = QuoteMode::Outside;
    let mut cur: Vec<char> = Vec::new();
    let mut i: usize = 0;
    assert(s@.take(0) =~= Seq::<char>::empty());
    assert(string_views(fields@) =~= Seq::<Seq<char>>::empty());
    while i < s.len()
        invariant
            s@ == text@,
            i <= s@.len(),
            quote_scan(s@.take(i as int)) == (string_views(fields@), mode, cur@),
        decreases s@.len() - i,
    {
        let c = s[i];
        assert(s@.take(i + 1).drop_last() =~= s@.take(i as int));
        match mode {
            QuoteMode::Outside => {
                if c == '\'' {
                    mode = QuoteMode::Inside;
                    cur = Vec::new();
                }
            },
            QuoteMode::Inside => {
                if c == '\\' {
                    mode = QuoteMode::Escaped;
                } else if c == '\'' {
                    let ghost old_fields = fields@;
                    fields.push(string_of(&cur));
                    assert(string_views(fields@) =~= string_views(old_fields).push(cur@));
                    mode = QuoteMode::Outside;
                    cur = Vec::new();
                } else {
                    cur.push(c);
                }
            },
            QuoteMode::Escaped => {
                cur.push(c);
                mode = QuoteMode::Inside;
            },
        }
        i += 1;
    }
    assert(s@.take(s@.len() as int) =~= s@);
    if mode != QuoteMode::Outside {
        let ghost old_fields = fields@;
        fields.push(string_of(&cur));
        assert(string_views(fields@) =~= string_views(old_fields).push(cur@));
    }
    fields
}

/// The owner named by the first action in groups of six fields that is not
/// clipd's own launcher, as "`<component>` — `<action>`".
pub open spec fn conflict_in(fields: Seq<Seq<char>>, from: int) -> Option<Seq<char>>
    decreases fields.len() - from,
{
    if from < 0 || from + 6 > fields.len() {
        None
    } else if fields[from + 2] != DESKTOP_NAME@ {
        Some(fields[from + 3] + " — "@ + fields[from + 1])
    } else {
        conflict_in(fields, from + 6)
    }
}

/// Which other Plasma action, if any, already owns the key in a
/// `getGlobalShortcutsByKey` reply (actions are six quoted fields each).
pub fn parse_shortcut_conflict(output: &str) -> (r: Option<String>)
    ensures
        r matches Some(o) ==> conflict_in(quoted_fields_of(output@), 0) == Some(o@),
        r is None ==> conflict_in(quoted_fields_of(output@), 0) is None,
{
    let fields = quoted_fields(output);
    let ghost fs = string_views(fields@);
    let own = chars_of(DESKTOP_NAME);
    let mut k: usize = 0;
    while fields.len() >= 6 && k <= fields.len() - 6
        invariant
            fs == string_views(fields@),
            fs == quoted_fields_of(output@),
            own@ == DESKTOP_NAME@,
            conflict_in(fs, 0) == conflict_in(fs, k as int),
            k <= fields@.len(),
        decreases fields@.len() - k,
    {
        let name = chars_of(fields[k + 2].as_str());
        assert(fs[k + 2] == fields@[k + 2]@);
        if !chars_eq(&name, &own) {
            let mut o = String::new();
            push_str(&mut o, fields[k + 3].as_str());
            push_str(&mut o, " — ");
            push_str(&mut o, fields[k + 1].as_str());
            assert(fs[k + 3] == fields@[k + 3]@);
            assert(fs[k + 1] == fields@[k + 1]@);
            assert(fs.len() == fields@.len());
            assert(conflict_in(fs, k as int) == Some(fs[k + 3] + " — "@ + fs[k + 1]));
            assert(o@ =~= fs[k + 3] + " — "@ + fs[k + 1]);
            return Some(o);
        }
        k += 6;
    }
    assert(fs.len() == fields@.len());
    None
}

// ---------------------------------------------------------------------------
// kglobalshortcutsrc patching
// ---------------------------------------------------------------------------

/// The group header that `kwriteconfig6` writes for nested groups; it is dropped.
pub const MANGLED_SECTION: &'static str = "[services\\x5d\\x5bclipd-show.desktop]";
/// The Plasma 6 group of clipd's launcher.
pub const SERVICES_SECTION: &'static str = "[services][clipd-show.desktop]";
/// The older group of clipd's launcher.
pub const LAUNCHER_SECTION: &'static str = "[clipd-show.desktop]";
/// The key that carries the binding.
pub const LAUNCH_KEY: &'static str = "_launch=";

/// Which kind of line `first_line` looks for.
#[derive(Clone, Copy, PartialEq, Eq, Structural)]
pub enum LineTest {
    /// The trimmed line equals the given group header.
    Header,
    /// The line, without leading white space, opens a group (`[`).
    GroupStart,
    /// The line, without leading white space, sets `_launch`.
    LaunchKey,
}

pub open spec fn line_passes(l: Seq<char>, test: LineTest, header: Seq<char>) -> bool {
    match test {
        LineTest::Header => trim(l) == header,
        LineTest::GroupStart => starts_with(trim_start(l), seq!['[']),
        LineTest::LaunchKey => starts_with(trim_start(l), LAUNCH_KEY@),
    }
}

/// The first index at or after `from` of a line that passes `test`, or the
/// number of lines when there is none.
pub open spec fn first_line(ls: Seq<Seq<char>>, from: int, test: LineTest, header: Seq<char>) -> int
    decreases ls.len() - from,
{
    if from < 0 || from >= ls.len() {
        ls.len() as int
    } else if line_passes(ls[from], test, header) {
        from
    } else {
        first_line(ls, from + 1, test, header)
    }
}

/// `ls` without the group `header` (its header line up to the next group).
pub open spec fn without_group(ls: Seq<Seq<char>>, header: Seq<char>) -> Seq<Seq<char>> {
    let start = first_line(ls, 0, LineTest::Header, header);
    if start >= ls.len() {
        ls
    } else {
        let end = first_line(ls, start + 1, LineTest::GroupStart, header);
        ls.subrange(0, start) + ls.subrange(end, ls.len() as int)
    }
}

/// `ls` with `value` as the `_launch` line of group `header`: it replaces the
/// group's first `_launch` line, or comes right after the header, or the group
/// is appended (after a blank line when the text does not end with one).
pub open spec fn with_launch_line(ls: Seq<Seq<char>>, header: Seq<char>, value: Seq<char>) -> Seq<
    Seq<char>,
> {
    let start = first_line(ls, 0, LineTest::Header, header);
    if start < ls.len() {
        let end = first_line(ls, start + 1, LineTest::GroupStart, header);
        let key = first_line(ls, start + 1, LineTest::LaunchKey, header);
        if key < end {
            ls.update(key, value)
        } else {
            ls.insert(start + 1, value)
        }
    } else {
        let padded = if ls.len() > 0 && ls.last().len() > 0 {
            ls.push(Seq::empty())
        } else {
            ls
        };
        padded.push(header).push(value)
    }
}

/// The lines of `kglobalshortcutsrc` after binding clipd's launcher to `launch`.
pub open spec fn patched_lines(text: Seq<char>, launch: Seq<char>) -> Seq<Seq<char>> {
    let value = LAUNCH_KEY@ + launch;
    let ls = without_group(lines_of(text), MANGLED_SECTION@);
    let ls = with_launch_line(ls, SERVICES_SECTION@, value);
    with_launch_line(ls, LAUNCHER_SECTION@, value)
}

/// The text of `kglobalshortcutsrc` after binding clipd's launcher to `launch`.
pub open spec fn patched_shortcutsrc(text: Seq<char>, launch: Seq<char>) -> Seq<char> {
    join_with(patched_lines(text, launch), '\n').push('\n')
}

fn line_passes_exec(l: &[char], test: LineTest, header: &[char]) -> (r: bool)
    ensures
        r == line_passes(l@, test, header@),
{
    match test {
        LineTest::Header => {
            let t = trim_chars(l);
            chars_eq(&t, header)
        },
        LineTest::GroupStart => {
            let i = skip_ws(l);
            let rest = sub_chars(l, i, l.len());
            assert(rest@ =~= l@.skip(i as int));
            let open = ['['];
            assert(open@ == seq!['[']);
            starts_with_chars(&rest, &open)
        },
        LineTest::LaunchKey => {
            let i = skip_ws(l);
            let rest = sub_chars(l, i, l.len());
            assert(rest@ =~= l@.skip(i as int));
            let key = chars_of(LAUNCH_KEY);
            starts_with_chars(&rest, &key)
        },
    }
}

fn first_line_exec(ls: &Vec<Vec<char>>, from: usize, test: LineTest, header: &[char]) -> (r: usize)
    ensures
        r as int == first_line(char_views(ls@), from as int, test, header@),
{
    let ghost v = char_views(ls@);
    let mut i = from;
    while i < ls.len()
        invariant
            v == char_views(ls@),
            from <= i,
            first_line(v, from as int, test, header@) == first_line(v, i as int, test, header@),
        decreases ls@.len() - i,
    {
        if line_passes_exec(&ls[i], test, header) {
            return i;
        }
        i += 1;
    }
    ls.len()
}

fn remove_section(ls: &mut Vec<Vec<char>>, header: &[char])
    ensures
        char_views(final(ls)@) == without_group(char_views(old(ls)@), header@),
{
    let ghost v = char_views(ls@);
    let start = first_line_exec(ls, 0, LineTest::Header, header);
    if start >= ls.len() {
        return;
    }
    let end = first_line_exec(ls, start + 1, LineTest::GroupStart, header);
    proof {
        lemma_first_line_bounds(v, start + 1, LineTest::GroupStart, header@);
    }
    let mut n = start;
    while n < end
        invariant
            start <= n <= end <= v.len(),
            ls@.len() == v.len() - (n - start),
            char_views(ls@) =~= v.subrange(0, start as int) + v.subrange(n as int, v.len() as int),
        decreases end - n,
    {
        let ghost before = char_views(ls@);
        ls.remove(start);
        assert(char_views(ls@) =~= before.remove(start as int));
        n += 1;
    }
}

proof fn lemma_first_line_bounds(ls: Seq<Seq<char>>, from: int, test: LineTest, header: Seq<char>)
    requires
        0 <= from,
    ensures
        first_line(ls, from, test, header) <= ls.len(),
        from <= ls.len() ==> from <= first_line(ls, from, test, header),
    decreases ls.len() - from,
{
    if from < ls.len() && !line_passes(ls[from], test, header) {
        lemma_first_line_bounds(ls, from + 1, test, header);
    }
}

fn upsert_section_key(ls: &mut Vec<Vec<char>>, header: &[char], value: &[char])
    ensures
        char_views(final(ls)@) == with_launch_line(char_views(old(ls)@), header@, value@),
{
    let ghost v = char_views(ls@);
    let start = first_line_exec(ls, 0, LineTest::Header, header);
    let val: Vec<char> = sub_chars(value, 0, value.len());
    assert(value@.subrange(0, value@.len() as int) =~= value@);
    if start < ls.len() {
        let end = first_line_exec(ls, start + 1, LineTest::GroupStart, header);
        let key = first_line_exec(ls, start + 1, LineTest::LaunchKey, header);
        proof {
            lemma_first_line_bounds(v, start + 1, LineTest::LaunchKey, header@);
            lemma_first_line_bounds(v, start + 1, LineTest::GroupStart, header@);
        }
        if key < end {
            ls.set(key, val);
            assert(char_views(ls@) =~= v.update(key as int, value@));
        } else {
            ls.insert(start + 1, val);
            assert(char_views(ls@) =~= v.insert(start + 1, value@));
        }
    } else {
        if ls.len() > 0 && ls[ls.len() - 1].len() > 0 {
            ls.push(Vec::new());
        }
        let ghost padded = char_views(ls@);
        let h: Vec<char> = sub_chars(header, 0, header.len());
        assert(header@.subrange(0, header@.len() as int) =~= header@);
        ls.push(h);
        ls.push(val);
        assert(char_views(ls@) =~= padded.push(header@).push(value@));
    }
}

/// `kglobalshortcutsrc` with clipd's launcher bound to `launch` in both the
/// Plasma 6 group and the older group, the mangled nested group removed, and
/// every other line kept.
pub fn patch_shortcutsrc(text: &str, launch: &str) -> (r: String)
    ensures
        r@ == patched_shortcutsrc(text@, launch@),
{
    let mut ls = lines(text);
    let mangled = chars_of(MANGLED_SECTION);
    remove_section(&mut ls, &mangled);
    let mut value = chars_of(LAUNCH_KEY);
    let l = chars_of(launch);
    let mut i: usize = 0;
    while i < l.len()
        invariant
            i <= l@.len(),
            value@ == LAUNCH_KEY@ + l@.take(i as int),
        decreases l@.len() - i,
    {
        value.push(l[i]);
        assert(l@.take(i + 1) =~= l@.take(i as int).push(l@[i as int]));
        assert(LAUNCH_KEY@ + l@.take(i + 1) =~= (LAUNCH_KEY@ + l@.take(i as int)).push(l@[i as int]));
        i += 1;
    }
    assert(l@.take(l@.len() as int) =~= l@);
    let services = chars_of(SERVICES_SECTION);
    upsert_section_key(&mut ls, &services, &value);
    let plain = chars_of(LAUNCHER_SECTION);
    upsert_section_key(&mut ls, &plain, &value);
    let mut out = String::new();
    push_joined(&mut out, &ls, '\n');
    push_char(&mut out, '\n');
    assert(out@ =~= patched_shortcutsrc(text@, launch@));
    out
}

// ---------------------------------------------------------------------------
// Launcher desktop files
// ---------------------------------------------------------------------------

/// The key in a desktop file that carries the chord.
pub const SHORTCUT_KEY: &'static str = "X-KDE-Shortcuts=";

/// The desktop entry Plasma launches for `clipd show`.
pub open spec fn desktop_text(exe: Seq<char>, shortcut: Seq<char>) -> Seq<char> {
    "[Desktop Entry]\nType=Application\nName=clipd History\nComment=Show clipboard history (Plasma binds the hotkey)\nExec="@
        + exe + " show\nIcon=edit-paste\nTerminal=false\nOnlyShowIn=KDE;\nStartupNotify=false\nX-KDE-Shortcuts="@
        + shortcut + "\n"@
}

/// `p` is somewhere in `s` once it occurs at some index.
proof fn lemma_occurs_gives_contains(s: Seq<char>, p: Seq<char>, i: int)
    requires
        occurs_at(s, p, i),
    ensures
        contains(s, p),
{
    lemma_find_from_bounds(s, p, 0);
}

/// A piece of the middle part occurs in the whole at its offset there.
proof fn lemma_occurs_in_middle(
    pre: Seq<char>,
    mid: Seq<char>,
    post: Seq<char>,
    p: Seq<char>,
    off: int,
)
    requires
        0 <= off,
        off + p.len() <= mid.len(),
        mid.subrange(off, off + p.len()) == p,
    ensures
        contains(pre + mid + post, p),
{
    let s = pre + mid + post;
    assert(s.subrange(pre.len() + off, pre.len() + off + p.len()) =~= p) by {
        assert forall|k: int| 0 <= k < p.len() implies #[trigger] s.subrange(
            pre.len() + off,
            pre.len() + off + p.len(),
        )[k] == p[k] by {
            assert(s[pre.len() + off + k] == mid[off + k]);
            assert(mid.subrange(off, off + p.len())[k] == mid[off + k]);
        }
    }
    lemma_occurs_gives_contains(s, p, pre.len() + off);
}

/// The launcher entry is an application entry that runs `<exe> show` without
/// a terminal, only in KDE, without startup notification, under the name
/// "clipd History" with the paste icon, and ends with its chord line.
#[verifier::spinoff_prover]
pub proof fn lemma_launcher_entry_lines(exe: Seq<char>, shortcut: Seq<char>)
    ensures
        starts_with(desktop_text(exe, shortcut), "[Desktop Entry]\n"@),
        contains(desktop_text(exe, shortcut), "\nType=Application\n"@),
        contains(desktop_text(exe, shortcut), "\nName=clipd History\n"@),
        contains(desktop_text(exe, shortcut), "\nExec="@ + exe + " show\n"@),
        contains(desktop_text(exe, shortcut), "\nIcon=edit-paste\n"@),
        contains(desktop_text(exe, shortcut), "\nTerminal=false\n"@),
        contains(desktop_text(exe, shortcut), "\nOnlyShowIn=KDE;\n"@),
        contains(desktop_text(exe, shortcut), "\nStartupNotify=false\n"@),
        desktop_text(exe, shortcut).skip(desktop_text(exe, shortcut).len() - (shortcut.len() + 18))
            == "\nX-KDE-Shortcuts="@ + shortcut + "\n"@,
{
    let a = "[Desktop Entry]\nType=Application\nName=clipd History\nComment=Show clipboard history (Plasma binds the hotkey)\nExec="@;
    let b = " show\nIcon=edit-paste\nTerminal=false\nOnlyShowIn=KDE;\nStartupNotify=false\nX-KDE-Shortcuts="@;
    let c = "\n"@;
    reveal_strlit("[Desktop Entry]\nType=Application\nName=clipd History\nComment=Show clipboard history (Plasma binds the hotkey)\nExec=");
    reveal_strlit(" show\nIcon=edit-paste\nTerminal=false\nOnlyShowIn=KDE;\nStartupNotify=false\nX-KDE-Shortcuts=");
    reveal_strlit("\n");
    reveal_strlit("[Desktop Entry]\n");
    reveal_strlit("\nType=Application\n");
    reveal_strlit("\nName=clipd History\n");
    reveal_strlit("\nExec=");
    reveal_strlit(" show\n");
    reveal_strlit("\nIcon=edit-paste\n");
    reveal_strlit("\nTerminal=false\n");
    reveal_strlit("\nOnlyShowIn=KDE;\n");
    reveal_strlit("\nStartupNotify=false\n");
    reveal_strlit("\nX-KDE-Shortcuts=");
    let t = desktop_text(exe, shortcut);
    assert(t == a + exe + b + shortcut + c);
    assert(a.len() == 114);
    assert(b.len() == 89);
    // Lines inside the opening part.
    assert(t == a + (exe + b + shortcut + c));
    assert(t.take(16) =~= "[Desktop Entry]\n"@);
    assert(a.subrange(15, 33) =~= "\nType=Application\n"@);
    lemma_occurs_in_middle(Seq::empty(), a, exe + b + shortcut + c, "\nType=Application\n"@, 15);
    assert(a.subrange(32, 52) =~= "\nName=clipd History\n"@);
    lemma_occurs_in_middle(Seq::empty(), a, exe + b + shortcut + c, "\nName=clipd History\n"@, 32);
    assert(Seq::<char>::empty() + a + (exe + b + shortcut + c) =~= t);
    // Lines inside the part after the program.
    assert(t == (a + exe) + b + (shortcut + c));
    assert(b.subrange(5, 22) =~= "\nIcon=edit-paste\n"@);
    lemma_occurs_in_middle(a + exe, b, shortcut + c, "\nIcon=edit-paste\n"@, 5);
    assert(b.subrange(21, 37) =~= "\nTerminal=false\n"@);
    lemma_occurs_in_middle(a + exe, b, shortcut + c, "\nTerminal=false\n"@, 21);
    assert(b.subrange(36, 53) =~= "\nOnlyShowIn=KDE;\n"@);
    lemma_occurs_in_middle(a + exe, b, shortcut + c, "\nOnlyShowIn=KDE;\n"@, 36);
    assert(b.subrange(52, 73) =~= "\nStartupNotify=false\n"@);
    lemma_occurs_in_middle(a + exe, b, shortcut + c, "\nStartupNotify=false\n"@, 52);
    // The Exec line spans the opening part, the program and what follows it.
    let e = "\nExec="@ + exe + " show\n"@;
    assert(a.skip(108) =~= "\nExec="@);
    assert(b.take(6) =~= " show\n"@);
    let pre = a.take(108);
    let post = b.skip(6) + shortcut + c;
    assert(t =~= pre + e + post);
    assert(e.subrange(0, e.len() as int) =~= e);
    lemma_occurs_in_middle(pre, e, post, e, 0);
    // The chord line ends the entry.
    assert(b.skip(72) =~= "\nX-KDE-Shortcuts="@);
    assert(t.skip(t.len() - (shortcut.len() + 18)) =~= "\nX-KDE-Shortcuts="@ + shortcut + "\n"@);
}

/// The desktop entry for the history launcher, running `<exe> show`, bound to `shortcut`.
pub fn desktop_body(exe: &str, shortcut: &str) -> (r: String)
    ensures
        r@ == desktop_text(exe@, shortcut@),
{
    let mut r = String::new();
    push_str(
        &mut r,
        "[Desktop Entry]\nType=Application\nName=clipd History\nComment=Show clipboard history (Plasma binds the hotkey)\nExec=",
    );
    push_str(&mut r, exe);
    push_str(
        &mut r,
        " show\nIcon=edit-paste\nTerminal=false\nOnlyShowIn=KDE;\nStartupNotify=false\nX-KDE-Shortcuts=",
    );
    push_str(&mut r, shortcut);
    push_str(&mut r, "\n");
    assert(r@ =~= desktop_text(exe@, shortcut@));
    r
}

/// A desktop file with its `X-KDE-Shortcuts=` value set to `xs`: the value after
/// the first such key, up to the end of its line, is replaced; without the key,
/// a line with it is appended (after a line break if the text lacks a final one).
pub open spec fn with_shortcut_value(text: Seq<char>, xs: Seq<char>) -> Seq<char> {
    let k = SHORTCUT_KEY@;
    match find(text, k) {
        Some(i) => {
            let rest = text.skip(i + k.len());
            let after = match find(rest, seq!['\n']) {
                Some(j) => rest.skip(j),
                None => Seq::empty(),
            };
            text.take(i) + k + xs + after
        },
        None => {
            let base = if text.len() > 0 && text.last() == '\n' {
                text
            } else {
                text.push('\n')
            };
            base + k + xs + seq!['\n']
        },
    }
}

/// Sets the `X-KDE-Shortcuts=` line of a launcher desktop file to `xs`.
pub fn patch_desktop_shortcut(text: &str, xs: &str) -> (r: String)
    ensures
        r@ == with_shortcut_value(text@, xs@),
{
    let t = chars_of(text);
    let k = chars_of(SHORTCUT_KEY);
    let mut r = String::new();
    match find_chars(&t, &k) {
        Some(i) => {
            proof {
                lemma_find_from_bounds(t@, k@, 0);
            }
            assert(occurs_at(t@, k@, i as int));
            assert(i + k@.len() <= t@.len());
            let tlen = t.len();
            let klen = k.len();
            assert(i + klen <= tlen);
            let rest = sub_chars(&t, i + klen, tlen);
            assert(rest@ =~= t@.skip(i + k@.len()));
            let nl = ['\n'];
            assert(nl@ == seq!['\n']);
            let head = sub_chars(&t, 0, i);
            assert(head@ =~= t@.take(i as int));
            push_chars(&mut r, &head);
            push_str(&mut r, SHORTCUT_KEY);
            push_str(&mut r, xs);
            match find_chars(&rest, &nl) {
                Some(j) => {
                    proof {
                        lemma_find_from_bounds(rest@, nl@, 0);
                    }
                    let after = sub_chars(&rest, j, rest.len());
                    assert(after@ =~= rest@.skip(j as int));
                    push_chars(&mut r, &after);
                },
                None => {},
            }
        },
        None => {
            push_chars(&mut r, &t);
            if !(t.len() > 0 && t[t.len() - 1] == '\n') {
                push_char(&mut r, '\n');
            }
            push_str(&mut r, SHORTCUT_KEY);
            push_str(&mut r, xs);
            push_char(&mut r, '\n');
        },
    }
    assert(r@ =~= with_shortcut_value(text@, xs@));
    r
}

// ---------------------------------------------------------------------------
// Window placement script
// ---------------------------------------------------------------------------

/// The opening of the KWin script that moves the popup next to the pointer.
pub const PLACEMENT_HEAD: &'static str = "(function () {\n    var FORCE_SIZE = ";

/// The rest of the KWin script, after the size it is told to force.
pub const PLACEMENT_BODY: &'static str = r#"    function place(w) {
        var cls = (w.resourceClass || "") + "";
        var cap = (w.caption || "") + "";
        var nam = (w.resourceName || "") + "";
        if (cls !== "clipd" && cap !== "clipd" && nam !== "clipd") return false;

        var pos = workspace.cursorPos;
        var g = w.frameGeometry;
        // WANT_* is egui content size; add a little for title-bar chrome when forcing.
        var winW = FORCE_SIZE ? (WANT_W + 0) : g.width;
        var winH = FORCE_SIZE ? (WANT_H + 36) : g.height;
        var area;
        try {
            area = workspace.clientArea(KWin.MaximizeArea, w);
        } catch (e) {
            area = { x: 0, y: 0, width: 3840, height: 2160 };
        }

        var margin = 12;
        var x = Math.round(pos.x + margin);
        var y = Math.round(pos.y + margin);

        if (y + winH > area.y + area.height) {
            y = Math.round(pos.y - margin - winH);
        }
        if (x + winW > area.x + area.width) {
            x = Math.round(pos.x - margin - winW);
        }

        var maxX = area.x + area.width - winW;
        var maxY = area.y + area.height - winH;
        if (maxX < area.x) maxX = area.x;
        if (maxY < area.y) maxY = area.y;
        x = Math.max(area.x, Math.min(x, maxX));
        y = Math.max(area.y, Math.min(y, maxY));

        try {
            w.frameGeometry = Qt.rect(x, y, winW, winH);
        } catch (e) {
            w.frameGeometry = { x: x, y: y, width: winW, height: winH };
        }
        return true;
    }
    var list = workspace.stackingOrder;
    for (var i = 0; i < list.length; i++) {
        if (place(list[i])) return;
    }
})();
"#;

/// The KWin script that moves the popup next to the pointer; with `force`, it
/// also sets the frame to that width and height (plus the title bar).
pub open spec fn placement_script_text(force: Option<(i32, i32)>) -> Seq<char> {
    let (flag, w, h) = match force {
        Some((w, h)) => ("true"@, w as int, h as int),
        None => ("false"@, 0int, 0int),
    };
    PLACEMENT_HEAD@ + flag + ";\n    var WANT_W = "@ + signed_decimal(w) + ";\n    var WANT_H = "@
        + signed_decimal(h) + ";\n"@ + PLACEMENT_BODY@
}

/// The KWin script that places the popup, forcing the frame size `force` when given.
pub fn placement_script(force: Option<(i32, i32)>) -> (r: String)
    ensures
        r@ == placement_script_text(force),
{
    let (flag, w, h): (&str, i32, i32) = match force {
        Some((w, h)) => ("true", w, h),
        None => ("false", 0, 0),
    };
    let mut r = String::new();
    push_str(&mut r, PLACEMENT_HEAD);
    push_str(&mut r, flag);
    push_str(&mut r, ";\n    var WANT_W = ");
    push_signed_decimal(&mut r, w as i64);
    push_str(&mut r, ";\n    var WANT_H = ");
    push_signed_decimal(&mut r, h as i64);
    push_str(&mut r, ";\n");
    push_str(&mut r, PLACEMENT_BODY);
    assert(r@ =~= placement_script_text(force));
    r
}

// ---------------------------------------------------------------------------
// Binding plan
// ---------------------------------------------------------------------------

/// The `_launch` value for `kglobalshortcutsrc`.
pub open spec fn launch_text(enabled: bool, shortcut: Seq<char>) -> Seq<char> {
    if enabled {
        shortcut + ",none,clipd History"@
    } else {
        "none,none,clipd History"@
    }
}

/// What binding or releasing the global shortcut writes: the KGlobalAccel keys,
/// the `kglobalshortcutsrc` value and the desktop-file value.
pub struct ShortcutPlan {
    pub keys: Vec<i32>,
    pub launch: String,
    pub desktop_value: String,
}

/// The plan for enabling (`enabled`) or releasing the chord `shortcut`; an enabled
/// chord must parse, a released one gets no keys and an empty desktop value.
pub fn shortcut_plan(enabled: bool, shortcut: &str) -> (r: Result<ShortcutPlan, ShortcutError>)
    ensures
        enabled ==> (r is Err <==> qt_shortcut(shortcut@) is Err),
        r matches Err(e) ==> qt_shortcut(shortcut@) == Err::<Seq<i32>, (ShortcutErrorKind, Seq<char>)>(
            (e.kind, e.detail@),
        ),
        r matches Ok(p) ==> {
            &&& enabled ==> qt_shortcut(shortcut@) == Ok::<Seq<i32>, (ShortcutErrorKind, Seq<char>)>(
                p.keys@,
            )
            &&& !enabled ==> p.keys@.len() == 0
            &&& p.launch@ == launch_text(enabled, shortcut@)
            &&& p.desktop_value@ == (if enabled {
                shortcut@
            } else {
                Seq::empty()
            })
        },
        !enabled ==> r is Ok,
{
    let keys = if enabled {
        match parse_qt_shortcut(shortcut) {
            Ok(k) => k,
            Err(e) => return Err(e),
        }
    } else {
        Vec::new()
    };
    let mut launch = String::new();
    let mut desktop_value = String::new();
    if enabled {
        push_str(&mut launch, shortcut);
        push_str(&mut launch, ",none,clipd History");
        push_str(&mut desktop_value, shortcut);
    } else {
        push_str(&mut launch, "none,none,clipd History");
    }
    assert(launch@ =~= launch_text(enabled, shortcut@));
    assert(desktop_value@ =~= (if enabled {
        shortcut@
    } else {
        Seq::empty()
    }));
    Ok(ShortcutPlan { keys, launch, desktop_value })
}

pub open spec fn key_tuple(k: i32) -> Seq<char> {
    "(["@ + signed_decimal(k as int) + ", 0, 0, 0],)"@
}

/// The key tuples joined by ", ".
pub open spec fn key_tuples(keys: Seq<i32>) -> Seq<char>
    decreases keys.len(),
{
    if keys.len() == 0 {
        Seq::empty()
    } else if keys.len() == 1 {
        key_tuple(keys[0])
    } else {
        key_tuples(keys.drop_last()) + ", "@ + key_tuple(keys.last())
    }
}

/// The GVariant argument of `setShortcutKeys` for `keys`.
pub open spec fn keys_argument(keys: Seq<i32>) -> Seq<char> {
    if keys.len() == 0 {
        "@a(ai) []"@
    } else {
        "@a(ai) ["@ + key_tuples(keys) + "]"@
    }
}

/// The GVariant argument of `setShortcutKeys` for `keys`.
pub fn keys_arg(keys: &[i32]) -> (r: String)
    ensures
        r@ == keys_argument(keys@),
{
    let mut r = String::new();
    if keys.len() == 0 {
        push_str(&mut r, "@a(ai) []");
        assert(r@ =~= keys_argument(keys@));
        return r;
    }
    push_str(&mut r, "@a(ai) [");
    let ghost head = r@;
    let mut i: usize = 0;
    while i < keys.len()
        invariant
            i <= keys@.len(),
            r@ == head + key_tuples(keys@.take(i as int)),
        decreases keys@.len() - i,
    {
        let ghost before = r@;
        if i > 0 {
            push_str(&mut r, ", ");
        }
        push_str(&mut r, "([");
        push_signed_decimal(&mut r, keys[i] as i64);
        push_str(&mut r, ", 0, 0, 0],)");
        proof {
            let next = keys@.take(i + 1);
            assert(next.drop_last() =~= keys@.take(i as int));
            assert(next.last() == keys@[i as int]);
            assert(r@ =~= head + key_tuples(next));
        }
        i += 1;
    }
    push_str(&mut r, "]");
    assert(keys@.take(keys@.len() as int) =~= keys@);
    assert(r@ =~= keys_argument(keys@));
    r
}

/// Whether a `setShortcutKeys` reply shows that Plasma refused the keys: it
/// answers with an empty key list when another action owns them.
pub fn keys_refused(keys: &[i32], reply: &str) -> (r: bool)
    ensures
        r == (keys@.len() > 0 && contains(reply@, "@a(ai) []"@)),
{
    if keys.len() == 0 {
        return false;
    }
    let t = chars_of(reply);
    let empty = chars_of("@a(ai) []");
    contains_chars(&t, &empty)
}

/// The refusal when another Plasma action already owns the chord's key.
pub open spec fn owned_text(shortcut: Seq<char>, owner: Seq<char>) -> Seq<char> {
    "shortcut `"@ + shortcut + "` is already used by "@ + owner
}

/// Refuses binding `shortcut` when the conflict check named an `owner` of its key.
pub fn owner_refusal(shortcut: &str, owner: Option<String>) -> (r: Option<String>)
    ensures
        owner is None ==> r is None,
        owner matches Some(o) ==> r matches Some(m) && m@ == owned_text(shortcut@, o@),
{
    match owner {
        None => None,
        Some(o) => {
            let mut m = String::new();
            push_str(&mut m, "shortcut `");
            push_str(&mut m, shortcut);
            push_str(&mut m, "` is already used by ");
            push_str(&mut m, o.as_str());
            Some(m)
        },
    }
}

/// What a `setShortcutKeys` call means for binding `shortcut` to `keys`: a
/// failed call gives its error output (trimmed); a reply with no keys when keys
/// were asked for means another action owns them.
pub fn set_keys_outcome(keys: &[i32], shortcut: &str, succeeded: bool, reply: &str, errors: &str) -> (r:
    Result<(), String>)
    ensures
        !succeeded ==> (r matches Err(m) && m@ == "gdbus setShortcutKeys failed: "@ + trim(errors@)),
        succeeded && keys@.len() > 0 && contains(reply@, "@a(ai) []"@) ==> (r matches Err(m) && m@
            == owned_text(shortcut@, "another Plasma action"@)),
        succeeded && !(keys@.len() > 0 && contains(reply@, "@a(ai) []"@)) ==> r is Ok,
{
    if !succeeded {
        let mut m = String::new();
        push_str(&mut m, "gdbus setShortcutKeys failed: ");
        push_chars(&mut m, &trim_chars(&chars_of(errors)));
        return Err(m);
    }
    if keys_refused(keys, reply) {
        let mut m = String::new();
        push_str(&mut m, "shortcut `");
        push_str(&mut m, shortcut);
        push_str(&mut m, "` is already used by ");
        push_str(&mut m, "another Plasma action");
        return Err(m);
    }
    Ok(())
}

/// What a `setForeignShortcutKeys` call means: a failed call gives its error
/// output (trimmed).
pub fn foreign_keys_outcome(succeeded: bool, errors: &str) -> (r: Result<(), String>)
    ensures
        succeeded ==> r is Ok,
        !succeeded ==> (r matches Err(m) && m@ == "gdbus failed: "@ + trim(errors@)),
{
    if succeeded {
        return Ok(());
    }
    let mut m = String::new();
    push_str(&mut m, "gdbus failed: ");
    push_chars(&mut m, &trim_chars(&chars_of(errors)));
    Err(m)
}

// ---------------------------------------------------------------------------
// Fallback chord
// ---------------------------------------------------------------------------

/// The chord a fresh configuration binds, and the one to fall back to.
pub const DEFAULT_SHORTCUT: &'static str = "Meta+Shift+V";

/// What `install` does after Plasma refused the configured chord.
#[derive(Clone, Copy, Debug, PartialEq, Eq, Structural)]
pub enum FallbackStep {
    /// The refused chord is the default already: go on without a global shortcut.
    KeepWithoutShortcut,
    /// Save the default chord in the configuration and try binding it.
    UseDefault,
}

/// The step after binding `configured` failed.
pub fn shortcut_fallback(configured: &str) -> (r: FallbackStep)
    ensures
        r == FallbackStep::KeepWithoutShortcut <==> configured@ == DEFAULT_SHORTCUT@,
{
    let c = chars_of(configured);
    let d = chars_of(DEFAULT_SHORTCUT);
    if chars_eq(&c, &d) {
        FallbackStep::KeepWithoutShortcut
    } else {
        FallbackStep::UseDefault
    }
}

// ---------------------------------------------------------------------------
// Laws
// ---------------------------------------------------------------------------

/// A part that a chord may hold: a modifier, or one ASCII letter or digit.
pub open spec fn part_allowed(c: PartClass) -> bool {
    match c {
        PartClass::Meta | PartClass::Ctrl | PartClass::Alt | PartClass::Shift => true,
        PartClass::Single(k) => is_ascii_alnum(k),
        _ => false,
    }
}

/// The number of parts that are one character (key parts).
pub open spec fn key_parts(parts: Seq<Seq<char>>) -> nat
    decreases parts.len(),
{
    if parts.len() == 0 {
        0
    } else {
        key_parts(parts.drop_last()) + if classify_part(parts.last()) is Single {
            1nat
        } else {
            0nat
        }
    }
}

/// The upper-cased key of the last key part, if any.
pub open spec fn last_key(parts: Seq<Seq<char>>) -> Option<char>
    decreases parts.len(),
{
    if parts.len() == 0 {
        None
    } else {
        match classify_part(parts.last()) {
            PartClass::Single(k) => Some(ascii_upper(k)),
            _ => last_key(parts.drop_last()),
        }
    }
}

/// Some part of `parts` is of class `c`.
pub open spec fn has_part(parts: Seq<Seq<char>>, c: PartClass) -> bool {
    exists|i: int| 0 <= i < parts.len() && #[trigger] classify_part(parts[i]) == c
}

/// Two chords are made of the same kinds of parts: each kind of a part of one
/// (its class, a key upper-cased) is the kind of some part of the other, and
/// they have as many key parts.
pub open spec fn same_part_classes(a: Seq<Seq<char>>, b: Seq<Seq<char>>) -> bool {
    &&& forall|i: int| 0 <= i < a.len() ==> has_kind(b, #[trigger] part_kind(a[i]))
    &&& forall|j: int| 0 <= j < b.len() ==> has_kind(a, #[trigger] part_kind(b[j]))
    &&& key_parts(a) == key_parts(b)
}

/// The class of a part with its key upper-cased: `v` and `V` are the same key.
pub open spec fn part_kind(p: Seq<char>) -> PartClass {
    match classify_part(p) {
        PartClass::Single(k) => PartClass::Single(ascii_upper(k)),
        c => c,
    }
}

/// Some part of `parts` is of kind `c`.
pub open spec fn has_kind(parts: Seq<Seq<char>>, c: PartClass) -> bool {
    exists|i: int| 0 <= i < parts.len() && #[trigger] part_kind(parts[i]) == c
}

/// Upper-casing keeps ASCII letters and digits what they are, and is idempotent.
proof fn lemma_ascii_upper(k: char)
    ensures
        is_ascii_alnum(ascii_upper(k)) == is_ascii_alnum(k),
        ascii_upper(ascii_upper(k)) == ascii_upper(k),
{
}

/// A part's kind is allowed exactly when its class is, and names the same
/// modifier or a key.
proof fn lemma_part_kind(p: Seq<char>)
    ensures
        part_allowed(part_kind(p)) == part_allowed(classify_part(p)),
        part_kind(p) is Single == classify_part(p) is Single,
        part_kind(p) is Single ==> part_kind(p)->Single_0 == ascii_upper(
            classify_part(p)->Single_0,
        ),
        !(classify_part(p) is Single) ==> part_kind(p) == classify_part(p),
{
    if let PartClass::Single(k) = classify_part(p) {
        lemma_ascii_upper(k);
    }
}

proof fn lemma_has_part_push(parts: Seq<Seq<char>>, c: PartClass)
    requires
        parts.len() > 0,
    ensures
        has_part(parts, c) == (has_part(parts.drop_last(), c) || classify_part(parts.last()) == c),
{
    let init = parts.drop_last();
    if has_part(parts, c) {
        let i = choose|i: int| 0 <= i < parts.len() && #[trigger] classify_part(parts[i]) == c;
        if i < init.len() {
            assert(init[i] == parts[i]);
        }
    }
    if has_part(init, c) {
        let i = choose|i: int| 0 <= i < init.len() && #[trigger] classify_part(init[i]) == c;
        assert(init[i] == parts[i]);
    }
    if classify_part(parts.last()) == c {
        assert(classify_part(parts[parts.len() - 1]) == c);
    }
}

/// Facts about key parts: the last key exists exactly when there is a key part,
/// it comes from one, and two different key parts make at least two.
proof fn lemma_key_parts(parts: Seq<Seq<char>>)
    ensures
        last_key(parts) is Some <==> key_parts(parts) > 0,
        last_key(parts) matches Some(kk) ==> exists|i: int|
            0 <= i < parts.len() && #[trigger] classify_part(parts[i]) is Single && kk
                == ascii_upper(classify_part(parts[i])->Single_0),
        forall|i: int, j: int|
            0 <= i < j < parts.len() && classify_part(#[trigger] parts[i]) is Single
                && classify_part(#[trigger] parts[j]) is Single ==> key_parts(parts) >= 2,
        forall|i: int|
            0 <= i < parts.len() && classify_part(#[trigger] parts[i]) is Single ==> key_parts(
                parts,
            ) >= 1,
    decreases parts.len(),
{
    if parts.len() > 0 {
        let init = parts.drop_last();
        let n = parts.len() - 1;
        lemma_key_parts(init);
        assert forall|i: int| 0 <= i < init.len() implies #[trigger] init[i] == parts[i] by {}
        if let PartClass::Single(k) = classify_part(parts.last()) {
            assert(classify_part(parts[n]) == PartClass::Single(k));
        }
        if last_key(parts) is Some && !(classify_part(parts.last()) is Single) {
            let kk = last_key(parts)->0;
            let i = choose|i: int|
                0 <= i < init.len() && #[trigger] classify_part(init[i]) is Single && kk
                    == ascii_upper(classify_part(init[i])->Single_0);
            assert(classify_part(parts[i]) == classify_part(init[i]));
        }
        assert forall|i: int, j: int|
            0 <= i < j < parts.len() && classify_part(#[trigger] parts[i]) is Single
                && classify_part(#[trigger] parts[j]) is Single implies key_parts(parts) >= 2 by {
            if j < n {
                assert(classify_part(init[i]) is Single && classify_part(init[j]) is Single);
            } else {
                assert(classify_part(init[i]) is Single);
            }
        }
        assert forall|i: int|
            0 <= i < parts.len() && classify_part(#[trigger] parts[i]) is Single implies key_parts(
                parts,
            ) >= 1 by {
            if i < n {
                assert(classify_part(init[i]) is Single);
            }
        }
    }
}

/// What folding the parts gives: a chord exactly when every part is allowed and
/// there is at most one key part; its modifiers are those present among the
/// parts and its key is the upper-cased key part.
#[verifier::spinoff_prover]
proof fn lemma_chord_of_parts_shape(parts: Seq<Seq<char>>, whole: Seq<char>)
    ensures
        chord_of_parts(parts, whole) is Ok <==> (forall|i: int|
            0 <= i < parts.len() ==> part_allowed(#[trigger] classify_part(parts[i])))
            && key_parts(parts) <= 1,
        chord_of_parts(parts, whole) matches Ok(c) ==> {
            &&& c.meta == has_part(parts, PartClass::Meta)
            &&& c.ctrl == has_part(parts, PartClass::Ctrl)
            &&& c.alt == has_part(parts, PartClass::Alt)
            &&& c.shift == has_part(parts, PartClass::Shift)
            &&& c.key == last_key(parts)
        },
    decreases parts.len(),
{
    if parts.len() == 0 {
        assert(!has_part(parts, PartClass::Meta));
        assert(!has_part(parts, PartClass::Ctrl));
        assert(!has_part(parts, PartClass::Alt));
        assert(!has_part(parts, PartClass::Shift));
    } else {
        let init = parts.drop_last();
        let n = parts.len() - 1;
        lemma_chord_of_parts_shape(init, whole);
        lemma_key_parts(init);
        lemma_has_part_push(parts, PartClass::Meta);
        lemma_has_part_push(parts, PartClass::Ctrl);
        lemma_has_part_push(parts, PartClass::Alt);
        lemma_has_part_push(parts, PartClass::Shift);
        assert forall|i: int| 0 <= i < init.len() implies #[trigger] init[i] == parts[i] by {}
        assert(parts.last() == parts[n]);
        let all_p = forall|i: int|
            0 <= i < parts.len() ==> part_allowed(#[trigger] classify_part(parts[i]));
        let all_i = forall|i: int|
            0 <= i < init.len() ==> part_allowed(#[trigger] classify_part(init[i]));
        assert(all_p ==> all_i) by {
            if all_p {
                assert forall|i: int| 0 <= i < init.len() implies part_allowed(
                    #[trigger] classify_part(init[i]),
                ) by {
                    assert(part_allowed(classify_part(parts[i])));
                }
            }
        }
        assert(all_p ==> part_allowed(classify_part(parts.last())));
        assert(all_i && part_allowed(classify_part(parts.last())) ==> all_p) by {
            if all_i && part_allowed(classify_part(parts.last())) {
                assert forall|i: int| 0 <= i < parts.len() implies part_allowed(
                    #[trigger] classify_part(parts[i]),
                ) by {
                    if i < n {
                        assert(part_allowed(classify_part(init[i])));
                    }
                }
            }
        }
    }
}

/// Chords made of the same kinds of parts parse alike: the order of the parts,
/// their ASCII case, the white space around them, a repeated modifier or
/// another name for the same modifier (`super` for `meta`, `control` for
/// `ctrl`) change neither whether the chord is accepted nor its key code.
#[verifier::spinoff_prover]
pub proof fn lemma_chords_parse_alike(s1: Seq<char>, s2: Seq<char>)
    requires
        same_part_classes(split_on(s1, '+'), split_on(s2, '+')),
    ensures
        qt_shortcut(s1) is Ok <==> qt_shortcut(s2) is Ok,
        qt_shortcut(s1) is Ok ==> qt_shortcut(s1) == qt_shortcut(s2),
{
    let p1 = split_on(s1, '+');
    let p2 = split_on(s2, '+');
    lemma_chord_of_parts_shape(p1, s1);
    lemma_chord_of_parts_shape(p2, s2);
    lemma_key_parts(p1);
    lemma_key_parts(p2);
    let a1 = forall|i: int| 0 <= i < p1.len() ==> part_allowed(#[trigger] classify_part(p1[i]));
    let a2 = forall|i: int| 0 <= i < p2.len() ==> part_allowed(#[trigger] classify_part(p2[i]));
    assert(a1 ==> a2) by {
        if a1 {
            assert forall|j: int| 0 <= j < p2.len() implies part_allowed(
                #[trigger] classify_part(p2[j]),
            ) by {
                assert(has_kind(p1, part_kind(p2[j])));
                let i = choose|i: int|
                    0 <= i < p1.len() && #[trigger] part_kind(p1[i]) == part_kind(p2[j]);
                assert(part_allowed(classify_part(p1[i])));
                lemma_part_kind(p1[i]);
                lemma_part_kind(p2[j]);
            }
        }
    }
    assert(a2 ==> a1) by {
        if a2 {
            assert forall|i: int| 0 <= i < p1.len() implies part_allowed(
                #[trigger] classify_part(p1[i]),
            ) by {
                assert(has_kind(p2, part_kind(p1[i])));
                let j = choose|j: int|
                    0 <= j < p2.len() && #[trigger] part_kind(p2[j]) == part_kind(p1[i]);
                assert(part_allowed(classify_part(p2[j])));
                lemma_part_kind(p1[i]);
                lemma_part_kind(p2[j]);
            }
        }
    }
    if chord_of_parts(p1, s1) is Ok {
        let c1 = chord_of_parts(p1, s1)->Ok_0;
        let c2 = chord_of_parts(p2, s2)->Ok_0;
        lemma_same_has_part(p1, p2, PartClass::Meta);
        lemma_same_has_part(p1, p2, PartClass::Ctrl);
        lemma_same_has_part(p1, p2, PartClass::Alt);
        lemma_same_has_part(p1, p2, PartClass::Shift);
        if key_parts(p1) == 1 {
            let kk1 = last_key(p1)->0;
            let kk2 = last_key(p2)->0;
            let i1 = choose|i: int|
                0 <= i < p1.len() && #[trigger] classify_part(p1[i]) is Single && kk1
                    == ascii_upper(classify_part(p1[i])->Single_0);
            let i2 = choose|i: int|
                0 <= i < p2.len() && #[trigger] classify_part(p2[i]) is Single && kk2
                    == ascii_upper(classify_part(p2[i])->Single_0);
            lemma_part_kind(p1[i1]);
            lemma_part_kind(p2[i2]);
            assert(has_kind(p2, part_kind(p1[i1])));
            let j = choose|j: int|
                0 <= j < p2.len() && #[trigger] part_kind(p2[j]) == part_kind(p1[i1]);
            lemma_part_kind(p2[j]);
            if j < i2 {
                assert(classify_part(p2[j]) is Single && classify_part(p2[i2]) is Single);
            } else if i2 < j {
                assert(classify_part(p2[i2]) is Single && classify_part(p2[j]) is Single);
            }
            assert(part_kind(p2[j]) == part_kind(p2[i2]));
        }
        assert(c1 == c2);
    }
}

proof fn lemma_same_has_part(p1: Seq<Seq<char>>, p2: Seq<Seq<char>>, c: PartClass)
    requires
        same_part_classes(p1, p2),
        !(c is Single),
    ensures
        has_part(p1, c) == has_part(p2, c),
{
    if has_part(p1, c) {
        let i = choose|i: int| 0 <= i < p1.len() && #[trigger] classify_part(p1[i]) == c;
        lemma_part_kind(p1[i]);
        assert(has_kind(p2, part_kind(p1[i])));
        let j = choose|j: int| 0 <= j < p2.len() && #[trigger] part_kind(p2[j]) == c;
        lemma_part_kind(p2[j]);
        assert(classify_part(p2[j]) == c);
    }
    if has_part(p2, c) {
        let j = choose|j: int| 0 <= j < p2.len() && #[trigger] classify_part(p2[j]) == c;
        lemma_part_kind(p2[j]);
        assert(has_kind(p1, part_kind(p2[j])));
        let i = choose|i: int| 0 <= i < p1.len() && #[trigger] part_kind(p1[i]) == c;
        lemma_part_kind(p1[i]);
        assert(classify_part(p1[i]) == c);
    }
}

/// The bits a chord's parts switch on: `0x1000_0000` for a Meta part (`meta`,
/// `super`, `win`, `mod4`), `0x0400_0000` for Ctrl, `0x0800_0000` for Alt and
/// `0x0200_0000` for Shift, each once however often it is named.
pub open spec fn bits_named(parts: Seq<Seq<char>>) -> int {
    (if has_part(parts, PartClass::Meta) { 0x1000_0000int } else { 0int })
        + (if has_part(parts, PartClass::Ctrl) { 0x0400_0000int } else { 0int })
        + (if has_part(parts, PartClass::Alt) { 0x0800_0000int } else { 0int })
        + (if has_part(parts, PartClass::Shift) { 0x0200_0000int } else { 0int })
}

/// The key code of an accepted chord: each modifier bit is set exactly when a
/// part names that modifier, plus the code of the one key part, upper-cased.
/// A chord is accepted exactly when every `+`-separated part is a modifier or
/// one ASCII letter or digit, at most one part is a key, and it has a modifier
/// and a key.
pub proof fn lemma_key_code_of_chord(s: Seq<char>)
    ensures
        qt_shortcut(s) is Ok <==> {
            let parts = split_on(s, '+');
            &&& forall|i: int| 0 <= i < parts.len() ==> part_allowed(#[trigger] classify_part(parts[i]))
            &&& key_parts(parts) == 1
            &&& bits_named(parts) > 0
        },
        qt_shortcut(s) matches Ok(v) ==> v.len() == 1 && exists|i: int|
            0 <= i < split_on(s, '+').len() && #[trigger] classify_part(split_on(s, '+')[i]) is Single
                && v[0] as int == bits_named(split_on(s, '+')) + (ascii_upper(
                classify_part(split_on(s, '+')[i])->Single_0,
            ) as u32) as int,
{
    let parts = split_on(s, '+');
    lemma_chord_of_parts_shape(parts, s);
    lemma_key_parts(parts);
    lemma_chord_key_alnum(parts, s);
    if let Ok(c) = chord_of_parts(parts, s) {
        assert(has_modifier(c) <==> bits_named(parts) > 0);
        if has_modifier(c) && c.key is Some {
            let k = c.key->0;
            assert(modifier_bits(c) == bits_named(parts));
            assert(modifier_bits(c) + (k as u32) <= 0x1E00_0000 + 128);
            let kk = last_key(parts)->0;
            let i = choose|i: int|
                0 <= i < parts.len() && #[trigger] classify_part(parts[i]) is Single && kk
                    == ascii_upper(classify_part(parts[i])->Single_0);
            assert(classify_part(parts[i]) is Single);
        }
    }
}

/// Why folding the parts failed, in terms of the parts.
proof fn lemma_chord_error_cause(parts: Seq<Seq<char>>, whole: Seq<char>)
    ensures
        chord_of_parts(parts, whole) matches Err((kind, d)) ==> match kind {
            ShortcutErrorKind::Invalid => d == whole && exists|i: int|
                0 <= i < parts.len() && trim(#[trigger] parts[i]).len() == 0,
            ShortcutErrorKind::MultipleKeys => key_parts(parts) >= 2,
            ShortcutErrorKind::KeyNotAlnum => exists|i: int|
                0 <= i < parts.len() && #[trigger] classify_part(parts[i]) is Single
                    && !is_ascii_alnum(classify_part(parts[i])->Single_0),
            ShortcutErrorKind::Unsupported => exists|i: int|
                0 <= i < parts.len() && #[trigger] classify_part(parts[i]) is Unsupported && d
                    == trim(parts[i]),
            _ => false,
        },
    decreases parts.len(),
{
    if parts.len() > 0 {
        let init = parts.drop_last();
        let n = parts.len() - 1;
        lemma_chord_error_cause(init, whole);
        lemma_chord_of_parts_shape(init, whole);
        lemma_key_parts(init);
        lemma_key_parts(parts);
        assert forall|i: int| 0 <= i < init.len() implies #[trigger] init[i] == parts[i] by {}
        assert(parts.last() == parts[n]);
        if let Err((kind, d)) = chord_of_parts(init, whole) {
            match kind {
                ShortcutErrorKind::Invalid => {
                    let i = choose|i: int| 0 <= i < init.len() && trim(#[trigger] init[i]).len() == 0;
                    assert(trim(parts[i]).len() == 0);
                },
                ShortcutErrorKind::KeyNotAlnum => {
                    let i = choose|i: int|
                        0 <= i < init.len() && #[trigger] classify_part(init[i]) is Single
                            && !is_ascii_alnum(classify_part(init[i])->Single_0);
                    assert(classify_part(parts[i]) == classify_part(init[i]));
                },
                ShortcutErrorKind::Unsupported => {
                    let i = choose|i: int|
                        0 <= i < init.len() && #[trigger] classify_part(init[i]) is Unsupported
                            && d == trim(init[i]);
                    assert(classify_part(parts[i]) == classify_part(init[i]));
                },
                _ => {},
            }
        } else {
            assert(classify_part(parts[n]) == classify_part(parts.last()));
        }
    }
}

/// Why a chord is refused: an empty part (the error names the whole chord), a
/// second key part, a key that is not an ASCII letter or digit, a part that is
/// neither a modifier nor one ASCII character (the error names it), no
/// modifier at all, or no key at all.
pub proof fn lemma_refusal_reasons(s: Seq<char>)
    ensures
        qt_shortcut(s) matches Err((kind, d)) ==> match kind {
            ShortcutErrorKind::Invalid => d == s && exists|i: int|
                0 <= i < split_on(s, '+').len() && trim(#[trigger] split_on(s, '+')[i]).len() == 0,
            ShortcutErrorKind::MultipleKeys => key_parts(split_on(s, '+')) >= 2,
            ShortcutErrorKind::KeyNotAlnum => exists|i: int|
                0 <= i < split_on(s, '+').len() && #[trigger] classify_part(split_on(s, '+')[i]) is Single
                    && !is_ascii_alnum(classify_part(split_on(s, '+')[i])->Single_0),
            ShortcutErrorKind::Unsupported => exists|i: int|
                0 <= i < split_on(s, '+').len() && #[trigger] classify_part(split_on(s, '+')[i]) is Unsupported
                    && d == trim(split_on(s, '+')[i]),
            ShortcutErrorKind::NoModifier => bits_named(split_on(s, '+')) == 0,
            ShortcutErrorKind::NoKey => key_parts(split_on(s, '+')) == 0,
        },
{
    let parts = split_on(s, '+');
    lemma_chord_error_cause(parts, s);
    lemma_chord_of_parts_shape(parts, s);
    lemma_key_parts(parts);
}

/// An accepted chord is one key code made of at least one modifier bit and an
/// upper-case ASCII letter or digit.
pub proof fn lemma_accepted_chord_shape(s: Seq<char>)
    ensures
        qt_shortcut(s) matches Ok(v) ==> v.len() == 1 && exists|c: Chord|
            #![trigger modifier_bits(c)]
            has_modifier(c) && (c.key matches Some(k) && is_ascii_alnum(k) && ascii_upper(k) == k
                && v[0] as int == modifier_bits(c) + (k as u32)),
{
    lemma_chord_key_alnum(split_on(s, '+'), s);
    if let Ok(c) = chord_of_parts(split_on(s, '+'), s) {
        if has_modifier(c) && c.key is Some {
            let k = c.key->0;
            assert(modifier_bits(c) + (k as u32) <= 0x1E00_0000 + 128);
        }
    }
}

/// The first action (six quoted fields, counted from the start) whose launcher
/// is not clipd's own is the one reported, as "`<component>` — `<action>`",
/// wherever it stands among the actions.
pub proof fn lemma_first_foreign_owner_reported(fields: Seq<Seq<char>>, k: int)
    requires
        0 <= k,
        6 * k + 6 <= fields.len(),
        fields[6 * k + 2] != DESKTOP_NAME@,
        forall|j: int| 0 <= j < k ==> #[trigger] fields[6 * j + 2] == DESKTOP_NAME@,
    ensures
        conflict_in(fields, 0) == Some(fields[6 * k + 3] + " — "@ + fields[6 * k + 1]),
{
    lemma_conflict_from(fields, 0, k);
}

proof fn lemma_conflict_from(fields: Seq<Seq<char>>, j: int, k: int)
    requires
        0 <= j <= k,
        6 * k + 6 <= fields.len(),
        fields[6 * k + 2] != DESKTOP_NAME@,
        forall|m: int| 0 <= m < k ==> #[trigger] fields[6 * m + 2] == DESKTOP_NAME@,
    ensures
        conflict_in(fields, 6 * j) == Some(fields[6 * k + 3] + " — "@ + fields[6 * k + 1]),
    decreases k - j,
{
    if j < k {
        assert(fields[6 * j + 2] == DESKTOP_NAME@);
        lemma_conflict_from(fields, j + 1, k);
        assert(6 * (j + 1) == 6 * j + 6);
    }
}

/// Whatever the reply, a reported owner is a foreign action: the owner comes
/// from the first six-field action whose launcher is not clipd's own, and no
/// owner is reported when every action is clipd's.
pub proof fn lemma_reported_owner_is_foreign(fields: Seq<Seq<char>>)
    ensures
        conflict_in(fields, 0) matches Some(o) ==> exists|k: int|
            0 <= k && 6 * k + 6 <= fields.len() && #[trigger] fields[6 * k + 2] != DESKTOP_NAME@
                && o == fields[6 * k + 3] + " — "@ + fields[6 * k + 1] && forall|j: int|
                0 <= j < k ==> #[trigger] fields[6 * j + 2] == DESKTOP_NAME@,
{
    lemma_owner_from(fields, 0);
}

proof fn lemma_owner_from(fields: Seq<Seq<char>>, j: int)
    requires
        0 <= j,
        forall|m: int| 0 <= m < j ==> #[trigger] fields[6 * m + 2] == DESKTOP_NAME@,
    ensures
        conflict_in(fields, 6 * j) matches Some(o) ==> exists|k: int|
            j <= k && 6 * k + 6 <= fields.len() && #[trigger] fields[6 * k + 2] != DESKTOP_NAME@
                && o == fields[6 * k + 3] + " — "@ + fields[6 * k + 1] && forall|m: int|
                0 <= m < k ==> #[trigger] fields[6 * m + 2] == DESKTOP_NAME@,
    decreases fields.len() - 6 * j,
{
    if 6 * j + 6 <= fields.len() {
        if fields[6 * j + 2] != DESKTOP_NAME@ {
            assert(fields[6 * j + 2] != DESKTOP_NAME@);
        } else {
            assert(6 * (j + 1) == 6 * j + 6);
            assert forall|m: int| 0 <= m < j + 1 implies #[trigger] fields[6 * m + 2]
                == DESKTOP_NAME@ by {}
            lemma_owner_from(fields, j + 1);
        }
    }
}

/// A key owned only by clipd's own launcher is no conflict: when every action
/// (six fields) names `clipd-show.desktop`, none is reported.
pub proof fn lemma_own_binding_is_no_conflict(fields: Seq<Seq<char>>, from: int)
    requires
        0 <= from,
        forall|k: int|
            #![trigger fields[from + 6 * k + 2]]
            0 <= k && from + 6 * k + 6 <= fields.len() ==> fields[from + 6 * k + 2] == DESKTOP_NAME@,
    ensures
        conflict_in(fields, from) is None,
    decreases fields.len() - from,
{
    if from + 6 <= fields.len() {
        assert(fields[from + 6 * 0 + 2] == DESKTOP_NAME@);
        assert forall|k: int|
            #![trigger fields[from + 6 + 6 * k + 2]]
            0 <= k && from + 6 + 6 * k + 6 <= fields.len() implies fields[from + 6 + 6 * k + 2]
            == DESKTOP_NAME@ by {
            assert(fields[from + 6 * (k + 1) + 2] == DESKTOP_NAME@);
            assert(from + 6 * (k + 1) + 2 == from + 6 + 6 * k + 2);
        }
        lemma_own_binding_is_no_conflict(fields, from + 6);
    }
}

/// The `_launch` line of group `header`: the first one between the group's
/// first header line and the next group.
pub open spec fn launch_line_of(ls: Seq<Seq<char>>, header: Seq<char>) -> Option<Seq<char>> {
    let start = first_line(ls, 0, LineTest::Header, header);
    if start >= ls.len() {
        None
    } else {
        let end = first_line(ls, start + 1, LineTest::GroupStart, header);
        let key = first_line(ls, start + 1, LineTest::LaunchKey, header);
        if key < end {
            Some(ls[key])
        } else {
            None
        }
    }
}

/// A group header line such as `[clipd-show.desktop]`.
pub open spec fn is_group_header(h: Seq<char>) -> bool {
    h.len() > 0 && h[0] == '[' && trim(h) == h
}

/// A line that sets `_launch` with nothing before the key.
pub open spec fn is_launch_value(v: Seq<char>) -> bool {
    starts_with(v, LAUNCH_KEY@)
}

proof fn lemma_launch_key_text()
    ensures
        LAUNCH_KEY@.len() == 8,
        LAUNCH_KEY@[0] == '_',
{
    reveal_strlit("_launch=");
}

/// Facts about how the three line tests see headers, launch lines and blank lines.
proof fn lemma_line_kinds(h: Seq<char>, l: Seq<char>)
    requires
        is_group_header(h),
    ensures
        trim(l) == h ==> line_passes(l, LineTest::GroupStart, h),
        starts_with(trim_start(l), LAUNCH_KEY@) ==> !line_passes(l, LineTest::Header, h)
            && !line_passes(l, LineTest::GroupStart, h),
        is_launch_value(l) ==> line_passes(l, LineTest::LaunchKey, h) && !line_passes(
            l,
            LineTest::Header,
            h,
        ) && !line_passes(l, LineTest::GroupStart, h),
        l.len() == 0 ==> !line_passes(l, LineTest::Header, h) && !line_passes(
            l,
            LineTest::GroupStart,
            h,
        ),
        l == h ==> line_passes(l, LineTest::Header, h) && line_passes(l, LineTest::GroupStart, h)
            && !line_passes(l, LineTest::LaunchKey, h),
{
    lemma_launch_key_text();
    let ts = trim_start(l);
    lemma_trim_end_is_prefix(ts);
    let j = choose|j: int| 0 <= j <= ts.len() && trim_end(ts) == ts.take(j);
    if trim(l) == h {
        assert(ts[0] == h[0]);
        assert(ts.take(1) =~= seq!['[']);
    }
    if starts_with(ts, LAUNCH_KEY@) {
        assert(ts[0] == LAUNCH_KEY@[0]);
        if trim(l).len() > 0 {
            assert(trim(l)[0] == ts[0]);
        }
        assert(ts.take(1) != seq!['[']);
    }
    if is_launch_value(l) {
        assert(l[0] == '_');
        assert(trim_start(l) == l);
        assert(ts[0] == '_');
        if trim(l).len() > 0 {
            assert(trim(l)[0] == ts[0]);
        }
        assert(ts.take(1) != seq!['[']);
    }
    if l.len() == 0 {
        assert(trim_start(l) == l);
        assert(trim_end(l) == l);
    }
    if l == h {
        assert(trim_start(h) == h);
        assert(h.take(1) =~= seq!['[']);
        if starts_with(h, LAUNCH_KEY@) {
            assert(h[0] == LAUNCH_KEY@[0]);
        }
    }
}

/// `first_line` only looks at which lines pass the test.
proof fn lemma_first_line_same_tests(
    a: Seq<Seq<char>>,
    b: Seq<Seq<char>>,
    from: int,
    test: LineTest,
    header: Seq<char>,
)
    requires
        0 <= from,
        a.len() == b.len(),
        forall|i: int|
            from <= i < a.len() ==> line_passes(#[trigger] a[i], test, header) == line_passes(
                b[i],
                test,
                header,
            ),
    ensures
        first_line(a, from, test, header) == first_line(b, from, test, header),
    decreases a.len() - from,
{
    if from < a.len() {
        lemma_first_line_same_tests(a, b, from + 1, test, header);
    }
}

/// `first_line` finds the same line in a list that agrees up to it.
proof fn lemma_first_line_prefix(
    a: Seq<Seq<char>>,
    b: Seq<Seq<char>>,
    from: int,
    test: LineTest,
    header: Seq<char>,
)
    requires
        0 <= from,
        first_line(a, from, test, header) < a.len(),
        first_line(a, from, test, header) < b.len(),
        forall|i: int| from <= i <= first_line(a, from, test, header) ==> #[trigger] a[i] == b[i],
    ensures
        first_line(b, from, test, header) == first_line(a, from, test, header),
    decreases a.len() - from,
{
    lemma_first_line_bounds_spec(a, from, test, header);
    assert(a[from] == b[from]);
    if !line_passes(a[from], test, header) {
        lemma_first_line_prefix(a, b, from + 1, test, header);
    }
}

/// Where no line of `a` from `from` on passes, a list that extends `a`
/// continues the search after `a`'s end.
proof fn lemma_first_line_past_prefix(
    a: Seq<Seq<char>>,
    b: Seq<Seq<char>>,
    from: int,
    test: LineTest,
    header: Seq<char>,
)
    requires
        0 <= from <= a.len(),
        a.len() <= b.len(),
        first_line(a, from, test, header) == a.len(),
        forall|i: int| 0 <= i < a.len() ==> #[trigger] a[i] == b[i],
    ensures
        first_line(b, from, test, header) == first_line(b, a.len() as int, test, header),
    decreases a.len() - from,
{
    if from < a.len() {
        lemma_first_line_past_prefix(a, b, from + 1, test, header);
    }
}

/// Inserting a line at `p` shifts every search that starts after `p`.
proof fn lemma_first_line_shift(
    ls: Seq<Seq<char>>,
    p: int,
    v: Seq<char>,
    from: int,
    test: LineTest,
    header: Seq<char>,
)
    requires
        0 <= p <= ls.len(),
        p <= from,
    ensures
        first_line(ls.insert(p, v), from + 1, test, header) == first_line(ls, from, test, header)
            + 1,
    decreases ls.len() - from,
{
    if from < ls.len() {
        assert(ls.insert(p, v)[from + 1] == ls[from]);
        lemma_first_line_shift(ls, p, v, from + 1, test, header);
    }
}

proof fn lemma_first_line_bounds_spec(ls: Seq<Seq<char>>, from: int, test: LineTest, header: Seq<char>)
    requires
        0 <= from,
    ensures
        first_line(ls, from, test, header) <= ls.len(),
        from <= ls.len() ==> from <= first_line(ls, from, test, header),
        first_line(ls, from, test, header) < ls.len() ==> line_passes(
            ls[first_line(ls, from, test, header)],
            test,
            header,
        ),
        forall|i: int|
            from <= i < first_line(ls, from, test, header) ==> !line_passes(
                #[trigger] ls[i],
                test,
                header,
            ),
    decreases ls.len() - from,
{
    if from < ls.len() && !line_passes(ls[from], test, header) {
        lemma_first_line_bounds_spec(ls, from + 1, test, header);
    }
}

/// Setting the `_launch` line of a group leaves that group with exactly that line.
#[verifier::spinoff_prover]
pub proof fn lemma_launch_line_is_set(ls: Seq<Seq<char>>, h: Seq<char>, v: Seq<char>)
    requires
        is_group_header(h),
        is_launch_value(v),
    ensures
        launch_line_of(with_launch_line(ls, h, v), h) == Some(v),
{
    let r = with_launch_line(ls, h, v);
    let start = first_line(ls, 0, LineTest::Header, h);
    lemma_first_line_bounds_spec(ls, 0, LineTest::Header, h);
    lemma_line_kinds(h, v);
    if start < ls.len() {
        let end = first_line(ls, start + 1, LineTest::GroupStart, h);
        let key = first_line(ls, start + 1, LineTest::LaunchKey, h);
        lemma_first_line_bounds_spec(ls, start + 1, LineTest::GroupStart, h);
        lemma_first_line_bounds_spec(ls, start + 1, LineTest::LaunchKey, h);
        if key < end {
            lemma_line_kinds(h, ls[key]);
            assert forall|t: LineTest, i: int| 0 <= i < ls.len() implies #[trigger] line_passes(
                ls[i],
                t,
                h,
            ) == line_passes(r[i], t, h) by {
                if i == key {
                    lemma_line_kinds(h, ls[key]);
                }
            }
            lemma_first_line_same_tests(ls, r, 0, LineTest::Header, h);
            lemma_first_line_same_tests(ls, r, start + 1, LineTest::GroupStart, h);
            lemma_first_line_same_tests(ls, r, start + 1, LineTest::LaunchKey, h);
            assert(first_line(r, 0, LineTest::Header, h) == start);
            assert(first_line(r, start + 1, LineTest::GroupStart, h) == end);
            assert(first_line(r, start + 1, LineTest::LaunchKey, h) == key);
            assert(r[key] == v);
        } else {
            let p = start + 1;
            lemma_first_line_prefix(ls, r, 0, LineTest::Header, h);
            assert(r[p] == v);
            lemma_first_line_shift(ls, p, v, p, LineTest::GroupStart, h);
            assert(first_line(r, p, LineTest::LaunchKey, h) == p);
            assert(first_line(r, p, LineTest::GroupStart, h) == first_line(
                r,
                p + 1,
                LineTest::GroupStart,
                h,
            ));
            assert(first_line(r, 0, LineTest::Header, h) == start);
            assert(first_line(r, p, LineTest::GroupStart, h) == end + 1);
        }
    } else {
        let padded = if ls.len() > 0 && ls.last().len() > 0 {
            ls.push(Seq::empty())
        } else {
            ls
        };
        let n = padded.len() as int;
        assert(r == padded.push(h).push(v));
        assert forall|i: int| 0 <= i < n implies !line_passes(#[trigger] r[i], LineTest::Header, h) by {
            if i < ls.len() {
                assert(r[i] == ls[i]);
            } else {
                assert(r[i].len() == 0);
                lemma_line_kinds(h, r[i]);
            }
        }
        lemma_first_line_bounds_spec(r, 0, LineTest::Header, h);
        lemma_first_line_all_fail(r, 0, n, LineTest::Header, h);
        lemma_line_kinds(h, h);
        assert(r[n] == h);
        assert(r[n + 1] == v);
        assert(first_line(r, 0, LineTest::Header, h) == n);
        assert(first_line(r, n + 1, LineTest::LaunchKey, h) == n + 1);
        assert(r.len() == n + 2);
        assert(first_line(r, n + 2, LineTest::GroupStart, h) == n + 2);
        assert(!line_passes(r[n + 1], LineTest::GroupStart, h));
        assert(first_line(r, n + 1, LineTest::GroupStart, h) == n + 2);
    }
}

/// With no passing line in `[from, to)`, the search goes on from `to`.
proof fn lemma_first_line_all_fail(
    ls: Seq<Seq<char>>,
    from: int,
    to: int,
    test: LineTest,
    header: Seq<char>,
)
    requires
        0 <= from <= to <= ls.len(),
        forall|i: int| from <= i < to ==> !line_passes(#[trigger] ls[i], test, header),
    ensures
        first_line(ls, from, test, header) == first_line(ls, to, test, header),
    decreases to - from,
{
    if from < to {
        lemma_first_line_all_fail(ls, from + 1, to, test, header);
    }
}

/// In `ls`, the group of header line `s1` ends no later than any later group header.
proof fn lemma_group_ends_before(ls: Seq<Seq<char>>, s1: int, s2: int, h: Seq<char>, h2: Seq<char>)
    requires
        0 <= s1 < s2 < ls.len(),
        is_group_header(h2),
        trim(ls[s2]) == h2,
    ensures
        first_line(ls, s1 + 1, LineTest::GroupStart, h) <= s2,
{
    lemma_line_kinds(h2, ls[s2]);
    assert(line_passes(ls[s2], LineTest::GroupStart, h2));
    assert(line_passes(ls[s2], LineTest::GroupStart, h));
    lemma_first_line_bounds_spec(ls, s1 + 1, LineTest::GroupStart, h);
}

/// Setting the `_launch` line of one group keeps the `_launch` line of another.
#[verifier::spinoff_prover]
#[verifier::rlimit(40)]
pub proof fn lemma_other_launch_line_kept(
    ls: Seq<Seq<char>>,
    h1: Seq<char>,
    h2: Seq<char>,
    v: Seq<char>,
)
    requires
        is_group_header(h1),
        is_group_header(h2),
        h1 != h2,
        is_launch_value(v),
        launch_line_of(ls, h1) is Some,
    ensures
        launch_line_of(with_launch_line(ls, h2, v), h1) == launch_line_of(ls, h1),
{
    let r = with_launch_line(ls, h2, v);
    let s1 = first_line(ls, 0, LineTest::Header, h1);
    let e1 = first_line(ls, s1 + 1, LineTest::GroupStart, h1);
    let k1 = first_line(ls, s1 + 1, LineTest::LaunchKey, h1);
    let s2 = first_line(ls, 0, LineTest::Header, h2);
    lemma_first_line_bounds_spec(ls, 0, LineTest::Header, h1);
    lemma_first_line_bounds_spec(ls, 0, LineTest::Header, h2);
    lemma_first_line_bounds_spec(ls, s1 + 1, LineTest::GroupStart, h1);
    lemma_first_line_bounds_spec(ls, s1 + 1, LineTest::LaunchKey, h1);
    lemma_line_kinds(h1, v);
    lemma_line_kinds(h2, v);
    assert(k1 < e1 <= ls.len());
    if s2 < ls.len() {
        let e2 = first_line(ls, s2 + 1, LineTest::GroupStart, h2);
        let k2 = first_line(ls, s2 + 1, LineTest::LaunchKey, h2);
        lemma_first_line_bounds_spec(ls, s2 + 1, LineTest::GroupStart, h2);
        lemma_first_line_bounds_spec(ls, s2 + 1, LineTest::LaunchKey, h2);
        assert(s1 != s2);
        if s1 < s2 {
            lemma_group_ends_before(ls, s1, s2, h1, h2);
        } else {
            lemma_group_ends_before(ls, s2, s1, h2, h1);
        }
        if k2 < e2 {
            lemma_line_kinds(h1, ls[k2]);
            assert forall|t: LineTest, i: int| 0 <= i < ls.len() implies #[trigger] line_passes(
                ls[i],
                t,
                h1,
            ) == line_passes(r[i], t, h1) by {
                if i == k2 {
                    lemma_line_kinds(h1, ls[k2]);
                }
            }
            lemma_first_line_same_tests(ls, r, 0, LineTest::Header, h1);
            lemma_first_line_same_tests(ls, r, s1 + 1, LineTest::GroupStart, h1);
            lemma_first_line_same_tests(ls, r, s1 + 1, LineTest::LaunchKey, h1);
            assert(k1 != k2);
            assert(r[k1] == ls[k1]);
        } else {
            let p = s2 + 1;
            assert(r == ls.insert(p, v));
            if s1 < s2 {
                lemma_first_line_prefix(ls, r, 0, LineTest::Header, h1);
                lemma_first_line_prefix(ls, r, s1 + 1, LineTest::LaunchKey, h1);
                if e1 < ls.len() {
                    lemma_first_line_prefix(ls, r, s1 + 1, LineTest::GroupStart, h1);
                }
                assert(r[k1] == ls[k1]);
            } else {
                assert forall|i: int| 0 <= i < p + 1 implies !line_passes(
                    #[trigger] r[i],
                    LineTest::Header,
                    h1,
                ) by {
                    if i < p {
                        assert(r[i] == ls[i]);
                    }
                }
                lemma_first_line_all_fail(r, 0, p + 1, LineTest::Header, h1);
                lemma_first_line_all_fail(ls, 0, p, LineTest::Header, h1);
                lemma_first_line_shift(ls, p, v, p, LineTest::Header, h1);
                lemma_first_line_shift(ls, p, v, s1 + 1, LineTest::GroupStart, h1);
                lemma_first_line_shift(ls, p, v, s1 + 1, LineTest::LaunchKey, h1);
                assert(first_line(r, 0, LineTest::Header, h1) == s1 + 1);
                assert(r[k1 + 1] == ls[k1]);
            }
        }
    } else {
        let padded = if ls.len() > 0 && ls.last().len() > 0 {
            ls.push(Seq::empty())
        } else {
            ls
        };
        let n = ls.len() as int;
        assert(r == padded.push(h2).push(v));
        assert forall|i: int| 0 <= i < ls.len() implies #[trigger] ls[i] == r[i] by {}
        lemma_first_line_prefix(ls, r, 0, LineTest::Header, h1);
        lemma_first_line_prefix(ls, r, s1 + 1, LineTest::LaunchKey, h1);
        if e1 < ls.len() {
            lemma_first_line_prefix(ls, r, s1 + 1, LineTest::GroupStart, h1);
        } else {
            lemma_first_line_past_prefix(ls, r, s1 + 1, LineTest::GroupStart, h1);
            lemma_first_line_bounds_spec(r, n, LineTest::GroupStart, h1);
        }
        assert(r[k1] == ls[k1]);
    }
}

/// The `X-KDE-Shortcuts=` value of a desktop file: what follows the first such
/// key, up to the end of its line.
pub open spec fn shortcut_value_of(text: Seq<char>) -> Option<Seq<char>> {
    match find(text, SHORTCUT_KEY@) {
        Some(i) => {
            let rest = text.skip(i + SHORTCUT_KEY@.len());
            Some(
                match find(rest, seq!['\n']) {
                    Some(j) => rest.take(j),
                    None => rest,
                },
            )
        },
        None => None,
    }
}

/// The key `X-KDE-Shortcuts=` holds no line break.
proof fn lemma_shortcut_key_text()
    ensures
        SHORTCUT_KEY@.len() == 16,
        forall|m: int| 0 <= m < SHORTCUT_KEY@.len() ==> #[trigger] SHORTCUT_KEY@[m] != '\n',
{
    reveal_strlit("X-KDE-Shortcuts=");
}

/// A text without line breaks followed by `after`, which is empty or opens with
/// a line break: the first line break, if any, is right after the text.
proof fn lemma_line_ends_after(xs: Seq<char>, after: Seq<char>)
    requires
        !xs.contains('\n'),
        after.len() == 0 || after[0] == '\n',
    ensures
        (match find(xs + after, seq!['\n']) {
            Some(j) => (xs + after).take(j),
            None => xs + after,
        }) == xs,
{
    let s = xs + after;
    let nl = seq!['\n'];
    lemma_find_from_bounds(s, nl, 0);
    assert forall|j: int| 0 <= j < xs.len() implies !occurs_at(s, nl, j) by {
        assert(s.subrange(j, j + 1)[0] == xs[j]);
        if xs[j] == '\n' {
            assert(xs.contains('\n'));
        }
    }
    if after.len() > 0 {
        assert(s.subrange(xs.len() as int, xs.len() as int + 1) =~= nl);
        lemma_first_occurrence_found(s, nl, 0, xs.len() as int);
        assert(s.take(xs.len() as int) =~= xs);
    } else {
        assert(s =~= xs);
        if find(s, nl) is Some {
            let j = find(s, nl)->0;
            assert(s.subrange(j, j + 1)[0] == s[j]);
            assert(xs.contains('\n'));
        }
    }
}

/// Setting the chord of a desktop file and reading it back gives that chord
/// (a chord is one line: it holds no line break).
pub proof fn lemma_desktop_shortcut_is_set(text: Seq<char>, xs: Seq<char>)
    requires
        !xs.contains('\n'),
    ensures
        shortcut_value_of(with_shortcut_value(text, xs)) == Some(xs),
{
    let k = SHORTCUT_KEY@;
    let r = with_shortcut_value(text, xs);
    lemma_shortcut_key_text();
    lemma_find_from_bounds(text, k, 0);
    match find(text, k) {
        Some(i) => {
            let rest = text.skip(i + k.len());
            let after = match find(rest, seq!['\n']) {
                Some(j) => rest.skip(j),
                None => Seq::empty(),
            };
            lemma_find_from_bounds(rest, seq!['\n'], 0);
            if find(rest, seq!['\n']) is Some {
                let j = find(rest, seq!['\n'])->0;
                assert(rest.subrange(j, j + 1)[0] == after[0]);
            }
            assert(r == text.take(i) + k + xs + after);
            assert forall|m: int| 0 <= m < i + k.len() implies #[trigger] r[m] == text[m] by {
                if m >= i {
                    assert(text.subrange(i, i + k.len())[m - i] == text[m]);
                }
            }
            assert(r.subrange(i, i + k.len()) =~= k);
            assert forall|j: int| 0 <= j < i implies !occurs_at(r, k, j) by {
                if occurs_at(r, k, j) {
                    assert forall|m: int| 0 <= m < k.len() implies #[trigger] text.subrange(
                        j,
                        j + k.len(),
                    )[m] == k[m] by {
                        assert(r.subrange(j, j + k.len())[m] == r[j + m]);
                        assert(r[j + m] == text[j + m]);
                    }
                    assert(text.subrange(j, j + k.len()) =~= k);
                    assert(occurs_at(text, k, j));
                }
            }
            lemma_first_occurrence_found(r, k, 0, i);
            assert(r.skip(i + k.len()) =~= xs + after);
            lemma_line_ends_after(xs, after);
        },
        None => {
            let base = if text.len() > 0 && text.last() == '\n' {
                text
            } else {
                text.push('\n')
            };
            let n = base.len() as int;
            assert(r == base + k + xs + seq!['\n']);
            assert(base[n - 1] == '\n');
            assert(r[n - 1] == '\n');
            assert forall|j: int| 0 <= j < n implies !occurs_at(r, k, j) by {
                if occurs_at(r, k, j) {
                    if j + k.len() <= text.len() {
                        assert forall|m: int| 0 <= m < k.len() implies #[trigger] text.subrange(
                            j,
                            j + k.len(),
                        )[m] == k[m] by {
                            assert(r.subrange(j, j + k.len())[m] == r[j + m]);
                            assert(r[j + m] == text[j + m]);
                        }
                        assert(text.subrange(j, j + k.len()) =~= k);
                        assert(occurs_at(text, k, j));
                    } else {
                        let m = if base.len() == text.len() {
                            n - 1
                        } else {
                            text.len() as int
                        };
                        assert(r[m] == '\n');
                        assert(j <= m < j + k.len());
                        assert(r.subrange(j, j + k.len())[m - j] == r[m]);
                        assert(k[m - j] == '\n');
                    }
                }
            }
            assert(r.subrange(n, n + k.len()) =~= k);
            lemma_first_occurrence_found(r, k, 0, n);
            assert(r.skip(n + k.len()) =~= xs + seq!['\n']);
            lemma_line_ends_after(xs, seq!['\n']);
        },
    }
}

/// After patching, both of clipd's groups have the `_launch` line for the
/// chord: `_launch=` followed by `launch`.
pub proof fn lemma_both_groups_bound(text: Seq<char>, launch: Seq<char>)
    ensures
        launch_line_of(patched_lines(text, launch), SERVICES_SECTION@) == Some(LAUNCH_KEY@ + launch),
        launch_line_of(patched_lines(text, launch), LAUNCHER_SECTION@) == Some(LAUNCH_KEY@ + launch),
{
    let value = LAUNCH_KEY@ + launch;
    reveal_strlit("[services][clipd-show.desktop]");
    reveal_strlit("[clipd-show.desktop]");
    lemma_header_text(SERVICES_SECTION@);
    lemma_header_text(LAUNCHER_SECTION@);
    assert(SERVICES_SECTION@.len() != LAUNCHER_SECTION@.len());
    assert(value.take(LAUNCH_KEY@.len() as int) =~= LAUNCH_KEY@);
    let ls = without_group(lines_of(text), MANGLED_SECTION@);
    let ls2 = with_launch_line(ls, SERVICES_SECTION@, value);
    lemma_launch_line_is_set(ls, SERVICES_SECTION@, value);
    lemma_launch_line_is_set(ls2, LAUNCHER_SECTION@, value);
    lemma_other_launch_line_kept(ls2, SERVICES_SECTION@, LAUNCHER_SECTION@, value);
}

/// Dropping a group keeps only lines that were there.
proof fn lemma_without_group_keeps(ls: Seq<Seq<char>>, h: Seq<char>, p: spec_fn(Seq<char>) -> bool)
    requires
        forall|i: int| 0 <= i < ls.len() ==> p(#[trigger] ls[i]),
    ensures
        forall|i: int| 0 <= i < without_group(ls, h).len() ==> p(#[trigger] without_group(ls, h)[i]),
{
    let start = first_line(ls, 0, LineTest::Header, h);
    lemma_first_line_bounds_spec(ls, 0, LineTest::Header, h);
    if start < ls.len() {
        let end = first_line(ls, start + 1, LineTest::GroupStart, h);
        lemma_first_line_bounds_spec(ls, start + 1, LineTest::GroupStart, h);
        let r = without_group(ls, h);
        assert forall|i: int| 0 <= i < r.len() implies p(#[trigger] r[i]) by {
            if i < start {
                assert(r[i] == ls[i]);
            } else {
                assert(r[i] == ls[end + (i - start)]);
            }
        }
    }
}

/// Setting a `_launch` line adds only the header, the value and a blank line,
/// and leaves at least one line.
proof fn lemma_with_launch_line_keeps(
    ls: Seq<Seq<char>>,
    h: Seq<char>,
    v: Seq<char>,
    p: spec_fn(Seq<char>) -> bool,
)
    requires
        forall|i: int| 0 <= i < ls.len() ==> p(#[trigger] ls[i]),
        p(h),
        p(v),
        p(Seq::empty()),
    ensures
        with_launch_line(ls, h, v).len() >= 1,
        forall|i: int|
            0 <= i < with_launch_line(ls, h, v).len() ==> p(#[trigger] with_launch_line(ls, h, v)[i]),
{
    let r = with_launch_line(ls, h, v);
    let start = first_line(ls, 0, LineTest::Header, h);
    lemma_first_line_bounds_spec(ls, 0, LineTest::Header, h);
    if start < ls.len() {
        let end = first_line(ls, start + 1, LineTest::GroupStart, h);
        let key = first_line(ls, start + 1, LineTest::LaunchKey, h);
        lemma_first_line_bounds_spec(ls, start + 1, LineTest::LaunchKey, h);
        lemma_first_line_bounds_spec(ls, start + 1, LineTest::GroupStart, h);
        if key < end {
            assert forall|i: int| 0 <= i < r.len() implies p(#[trigger] r[i]) by {
                if i != key {
                    assert(r[i] == ls[i]);
                }
            }
        } else {
            assert forall|i: int| 0 <= i < r.len() implies p(#[trigger] r[i]) by {
                if i < start + 1 {
                    assert(r[i] == ls[i]);
                } else if i > start + 1 {
                    assert(r[i] == ls[i - 1]);
                }
            }
        }
    } else {
        let padded = if ls.len() > 0 && ls.last().len() > 0 {
            ls.push(Seq::empty())
        } else {
            ls
        };
        assert(r == padded.push(h).push(v));
        assert forall|i: int| 0 <= i < r.len() implies p(#[trigger] r[i]) by {
            if i < ls.len() {
                assert(r[i] == ls[i]);
            } else if i < padded.len() {
                assert(r[i] == Seq::<char>::empty());
            }
        }
    }
}

/// Setting the `_launch` line a group already has changes nothing.
proof fn lemma_launch_line_already_set(ls: Seq<Seq<char>>, h: Seq<char>, v: Seq<char>)
    requires
        launch_line_of(ls, h) == Some(v),
    ensures
        with_launch_line(ls, h, v) == ls,
{
    let start = first_line(ls, 0, LineTest::Header, h);
    let key = first_line(ls, start + 1, LineTest::LaunchKey, h);
    lemma_first_line_bounds_spec(ls, 0, LineTest::Header, h);
    lemma_first_line_bounds_spec(ls, start + 1, LineTest::GroupStart, h);
    lemma_first_line_bounds_spec(ls, start + 1, LineTest::LaunchKey, h);
    assert(ls.update(key, v) =~= ls);
}

/// Where no line is the header of group `h`, dropping that group changes nothing.
proof fn lemma_without_absent_group(ls: Seq<Seq<char>>, h: Seq<char>)
    requires
        forall|i: int| 0 <= i < ls.len() ==> !line_passes(#[trigger] ls[i], LineTest::Header, h),
    ensures
        without_group(ls, h) == ls,
{
    lemma_first_line_all_fail(ls, 0, ls.len() as int, LineTest::Header, h);
}

/// Where at most one line is the header of group `h`, dropping the group
/// leaves no such header.
proof fn lemma_without_group_leaves_no_header(ls: Seq<Seq<char>>, h: Seq<char>)
    requires
        forall|i: int, j: int|
            0 <= i < j < ls.len() ==> !(line_passes(#[trigger] ls[i], LineTest::Header, h)
                && line_passes(#[trigger] ls[j], LineTest::Header, h)),
    ensures
        forall|i: int|
            0 <= i < without_group(ls, h).len() ==> !line_passes(
                #[trigger] without_group(ls, h)[i],
                LineTest::Header,
                h,
            ),
{
    let start = first_line(ls, 0, LineTest::Header, h);
    lemma_first_line_bounds_spec(ls, 0, LineTest::Header, h);
    if start < ls.len() {
        let end = first_line(ls, start + 1, LineTest::GroupStart, h);
        lemma_first_line_bounds_spec(ls, start + 1, LineTest::GroupStart, h);
        let r = without_group(ls, h);
        assert forall|i: int| 0 <= i < r.len() implies !line_passes(
            #[trigger] r[i],
            LineTest::Header,
            h,
        ) by {
            if i < start {
                assert(r[i] == ls[i]);
            } else {
                let j = end + (i - start);
                assert(r[i] == ls[j]);
                assert(start < j);
                assert(!(line_passes(ls[start], LineTest::Header, h) && line_passes(
                    ls[j],
                    LineTest::Header,
                    h,
                )));
            }
        }
    }
}

proof fn lemma_section_texts()
    ensures
        one_line_text(SERVICES_SECTION@),
        one_line_text(LAUNCHER_SECTION@),
        one_line_text(LAUNCH_KEY@),
        is_group_header(MANGLED_SECTION@),
        is_group_header(SERVICES_SECTION@),
        is_group_header(LAUNCHER_SECTION@),
        SERVICES_SECTION@ != MANGLED_SECTION@,
        LAUNCHER_SECTION@ != MANGLED_SECTION@,
{
    reveal_strlit("[services\\x5d\\x5bclipd-show.desktop]");
    reveal_strlit("[services][clipd-show.desktop]");
    reveal_strlit("[clipd-show.desktop]");
    reveal_strlit("_launch=");
    lemma_header_text(MANGLED_SECTION@);
    lemma_header_text(SERVICES_SECTION@);
    lemma_header_text(LAUNCHER_SECTION@);
    assert(SERVICES_SECTION@.len() != MANGLED_SECTION@.len());
    assert(LAUNCHER_SECTION@.len() != MANGLED_SECTION@.len());
}

/// The patched `kglobalshortcutsrc` (for a text without carriage returns, a
/// one-line binding, and at most one line with the mangled nested group
/// header) ends with a line break, reads back as the patched lines, holds no
/// mangled group header, and binds both of clipd's groups to `launch`.
#[verifier::spinoff_prover]
pub proof fn lemma_patched_text_shape(text: Seq<char>, launch: Seq<char>)
    requires
        forall|m: int| 0 <= m < text.len() ==> #[trigger] text[m] != '\r',
        one_line_text(launch),
        forall|i: int, j: int|
            0 <= i < j < lines_of(text).len() ==> !(trim(#[trigger] lines_of(text)[i])
                == MANGLED_SECTION@ && trim(#[trigger] lines_of(text)[j]) == MANGLED_SECTION@),
    ensures
        patched_shortcutsrc(text, launch).len() > 0,
        patched_shortcutsrc(text, launch).last() == '\n',
        lines_of(patched_shortcutsrc(text, launch)) == patched_lines(text, launch),
        forall|i: int|
            0 <= i < lines_of(patched_shortcutsrc(text, launch)).len() ==> trim(
                #[trigger] lines_of(patched_shortcutsrc(text, launch))[i],
            ) != MANGLED_SECTION@,
        launch_line_of(lines_of(patched_shortcutsrc(text, launch)), SERVICES_SECTION@) == Some(
            LAUNCH_KEY@ + launch,
        ),
        launch_line_of(lines_of(patched_shortcutsrc(text, launch)), LAUNCHER_SECTION@) == Some(
            LAUNCH_KEY@ + launch,
        ),
{
    let m = MANGLED_SECTION@;
    let v = LAUNCH_KEY@ + launch;
    lemma_section_texts();
    let p = |l: Seq<char>| one_line_text(l) && !line_passes(l, LineTest::Header, m);
    let ls0 = lines_of(text);
    lemma_lines_of_one_line(text);
    let ls1 = without_group(ls0, m);
    lemma_without_group_leaves_no_header(ls0, m);
    lemma_without_group_keeps(ls0, m, |l: Seq<char>| one_line_text(l));
    assert forall|i: int| 0 <= i < ls1.len() implies p(#[trigger] ls1[i]) by {}
    // The lines added hold neither a line break nor the mangled header.
    assert(one_line_text(v)) by {
        assert forall|k: int| 0 <= k < v.len() implies #[trigger] v[k] != '\n' && v[k] != '\r' by {
            if k < LAUNCH_KEY@.len() {
                assert(v[k] == LAUNCH_KEY@[k]);
            } else {
                assert(v[k] == launch[k - LAUNCH_KEY@.len()]);
            }
        }
    }
    assert(v.take(LAUNCH_KEY@.len() as int) =~= LAUNCH_KEY@);
    lemma_line_kinds(m, v);
    lemma_line_kinds(m, Seq::empty());
    lemma_line_kinds(m, SERVICES_SECTION@);
    lemma_line_kinds(m, LAUNCHER_SECTION@);
    assert(p(v));
    assert(p(Seq::empty()));
    assert(p(SERVICES_SECTION@));
    assert(p(LAUNCHER_SECTION@));
    let ls2 = with_launch_line(ls1, SERVICES_SECTION@, v);
    lemma_with_launch_line_keeps(ls1, SERVICES_SECTION@, v, p);
    let ls3 = with_launch_line(ls2, LAUNCHER_SECTION@, v);
    lemma_with_launch_line_keeps(ls2, LAUNCHER_SECTION@, v, p);
    assert(ls3 == patched_lines(text, launch));
    assert forall|i: int| 0 <= i < ls3.len() implies one_line_text(#[trigger] ls3[i]) by {
        assert(p(ls3[i]));
    }
    lemma_lines_of_joined(ls3);
    assert forall|i: int| 0 <= i < ls3.len() implies trim(#[trigger] ls3[i]) != m by {
        assert(p(ls3[i]));
    }
    lemma_both_groups_bound(text, launch);
}

/// Patching `kglobalshortcutsrc` a second time with the same binding changes
/// nothing, for a text without carriage returns, a one-line binding, and at
/// most one line with the mangled nested group header.
pub proof fn lemma_patch_is_idempotent(text: Seq<char>, launch: Seq<char>)
    requires
        forall|m: int| 0 <= m < text.len() ==> #[trigger] text[m] != '\r',
        one_line_text(launch),
        forall|i: int, j: int|
            0 <= i < j < lines_of(text).len() ==> !(trim(#[trigger] lines_of(text)[i])
                == MANGLED_SECTION@ && trim(#[trigger] lines_of(text)[j]) == MANGLED_SECTION@),
    ensures
        patched_shortcutsrc(patched_shortcutsrc(text, launch), launch) == patched_shortcutsrc(
            text,
            launch,
        ),
{
    let m = MANGLED_SECTION@;
    let v = LAUNCH_KEY@ + launch;
    lemma_patched_text_shape(text, launch);
    let ls3 = patched_lines(text, launch);
    let t2 = patched_shortcutsrc(text, launch);
    // The second patch finds nothing to drop and both lines already set.
    assert forall|i: int| 0 <= i < ls3.len() implies !line_passes(
        #[trigger] ls3[i],
        LineTest::Header,
        m,
    ) by {
        assert(trim(lines_of(t2)[i]) != m);
    }
    lemma_without_absent_group(ls3, m);
    lemma_launch_line_already_set(ls3, SERVICES_SECTION@, v);
    lemma_launch_line_already_set(ls3, LAUNCHER_SECTION@, v);
    assert(patched_lines(t2, launch) == ls3);
}

/// A header text without white space around it, opening with `[`.
proof fn lemma_header_text(h: Seq<char>)
    requires
        h.len() > 1,
        h[0] == '[',
        h.last() == ']',
    ensures
        is_group_header(h),
{
    assert(trim_start(h) == h);
    assert(trim_end(h) == h);
}

} // verus!
