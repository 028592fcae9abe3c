//! A conservative check for player names whose capitalization looks like a
//! typing slip ("smith", "SMITH", "SMith"). Lowercase particles ("van",
//! "de"), the Mc / Mac / O' / D' / L' patterns and roman-numeral suffixes
//! stay quiet.

use crate::text::{chars_eq, chars_of, is_whitespace, is_ws, string_of, trim, trim_chars, trim_end, trim_start};
use vstd::prelude::*;

verus! {

// ── Unicode character classes and case mapping ─────────────────────────────

/// Whether `c` has the Unicode `Alphabetic` property.
pub uninterp spec fn alphabetic(c: char) -> bool;

/// Whether `c` has the Unicode `Lowercase` property.
pub uninterp spec fn lowercase(c: char) -> bool;

/// Whether `c` has the Unicode `Uppercase` property.
pub uninterp spec fn uppercase(c: char) -> bool;

/// The text `s` mapped to lowercase by Unicode's case mapping (which may
/// depend on context, as for a final sigma).
pub uninterp spec fn lowercase_of(s: Seq<char>) -> Seq<char>;

/// The text `s` mapped to uppercase by Unicode's case mapping (one
/// character may become several, as 'ß' becomes "SS").
pub uninterp spec fn uppercase_of(s: Seq<char>) -> Seq<char>;

/// `char::is_alphabetic`: the result is `alphabetic(c)`.
#[verifier::external_body]
fn is_alphabetic(c: char) -> (b: bool)
    ensures
        b == alphabetic(c),
{
    c.is_alphabetic()
}

/// `char::is_lowercase`: the result is `lowercase(c)`.
#[verifier::external_body]
fn is_lowercase(c: char) -> (b: bool)
    ensures
        b == lowercase(c),
{
    c.is_lowercase()
}

/// `char::is_uppercase`: the result is `uppercase(c)`.
#[verifier::external_body]
fn is_uppercase(c: char) -> (b: bool)
    ensures
        b == uppercase(c),
{
    c.is_uppercase()
}

/// `str::to_lowercase`: the result is `lowercase_of` of the text.
#[verifier::external_body]
fn to_lowercase(s: &str) -> (r: String)
    ensures
        r@ == lowercase_of(s@),
{
    s.to_lowercase()
}

/// `str::to_uppercase`: the result is `uppercase_of` of the text.
#[verifier::external_body]
fn to_uppercase(s: &str) -> (r: String)
    ensures
        r@ == uppercase_of(s@),
{
    s.to_uppercase()
}

// ── The words of a name ────────────────────────────────────────────────────

/// The words finished so far and the word being read, after the characters
/// of `s`: a word is a maximal run of characters that are not white space.
pub open spec fn words_acc(s: Seq<char>) -> (Seq<Seq<char>>, Seq<char>)
    decreases s.len(),
{
    if s.len() == 0 {
        (Seq::empty(), Seq::empty())
    } else {
        let (ws, cur) = words_acc(s.drop_last());
        if is_ws(s.last()) {
            if cur.len() > 0 {
                (ws.push(cur), Seq::empty())
            } else {
                (ws, Seq::empty())
            }
        } else {
            (ws, cur.push(s.last()))
        }
    }
}

/// The white-space separated words of `s` (`str::split_whitespace`).
pub open spec fn words(s: Seq<char>) -> Seq<Seq<char>> {
    let (ws, cur) = words_acc(s);
    if cur.len() > 0 {
        ws.push(cur)
    } else {
        ws
    }
}

/// Character sets stripped from the ends of a word.
#[derive(Clone, Copy)]
pub enum Marks {
    /// Brackets, periods and commas around a word: `( ) [ ] { } . ,`.
    Wrapping,
    /// The letters of roman numerals: `I V X L C D M`.
    Roman,
}

pub open spec fn marks_has(m: Marks, c: char) -> bool {
    match m {
        Marks::Wrapping => c == '(' || c == ')' || c == '[' || c == ']' || c == '{' || c == '}'
            || c == '.' || c == ',',
        Marks::Roman => c == 'I' || c == 'V' || c == 'X' || c == 'L' || c == 'C' || c == 'D' || c
            == 'M',
    }
}

fn has_mark(m: Marks, c: char) -> (b: bool)
    ensures
        b == marks_has(m, c),
{
    match m {
        Marks::Wrapping => c == '(' || c == ')' || c == '[' || c == ']' || c == '{' || c == '}'
            || c == '.' || c == ',',
        Marks::Roman => c == 'I' || c == 'V' || c == 'X' || c == 'L' || c == 'C' || c == 'D' || c
            == 'M',
    }
}

pub open spec fn trim_marks_start(s: Seq<char>, m: Marks) -> Seq<char>
    decreases s.len(),
{
    if s.len() > 0 && marks_has(m, s[0]) {
        trim_marks_start(s.drop_first(), m)
    } else {
        s
    }
}

pub open spec fn trim_marks_end(s: Seq<char>, m: Marks) -> Seq<char>
    decreases s.len(),
{
    if s.len() > 0 && marks_has(m, s.last()) {
        trim_marks_end(s.drop_last(), m)
    } else {
        s
    }
}

/// `s` without the characters of `m` at either end (`str::trim_matches`).
pub open spec fn trim_marks(s: Seq<char>, m: Marks) -> Seq<char> {
    trim_marks_end(trim_marks_start(s, m), m)
}

/// `v` without the characters of `m` at either end.
fn strip_marks(v: &[char], m: Marks) -> (r: Vec<char>)
    ensures
        r@ == trim_marks(v@, m),
{
    let n = v.len();
    let mut i: usize = 0;
    assert(v@.subrange(0, n as int) =~= v@);
    while i < n && has_mark(m, v[i])
        invariant
            i <= n == v@.len(),
            trim_marks_start(v@, m) == trim_marks_start(v@.subrange(i as int, n as int), m),
        decreases n - i,
    {
        assert(v@.subrange(i as int, n as int).drop_first() =~= v@.subrange(i + 1, n as int));
        i = i + 1;
    }
    let ghost rest = v@.subrange(i as int, n as int);
    let mut j: usize = n;
    assert(rest.take(j - i) =~= rest);
    while j > i && has_mark(m, v[j - 1])
        invariant
            i <= j <= n == v@.len(),
            rest == v@.subrange(i as int, n as int),
            trim_marks_end(rest, m) == trim_marks_end(rest.take(j - i), m),
        decreases j,
    {
        assert(rest.take(j - i).drop_last() =~= rest.take(j - 1 - i));
        assert(rest.take(j - i).last() == v@[j - 1]);
        j = j - 1;
    }
    let mut r: Vec<char> = Vec::new();
    let mut k: usize = i;
    while k < j
        invariant
            i <= k <= j <= n == v@.len(),
            r@ == v@.subrange(i as int, k as int),
        decreases j - k,
    {
        r.push(v[k]);
        k = k + 1;
        assert(r@ =~= v@.subrange(i as int, k as int));
    }
    assert(r@ =~= rest.take(j - i));
    r
}

// ── The rules ──────────────────────────────────────────────────────────────

/// The lowercase particles that names keep lowercase.
pub open spec fn is_particle(w: Seq<char>) -> bool {
    ||| w == "de"@
    ||| w == "del"@
    ||| w == "della"@
    ||| w == "di"@
    ||| w == "da"@
    ||| w == "van"@
    ||| w == "von"@
    ||| w == "der"@
    ||| w == "den"@
    ||| w == "la"@
    ||| w == "le"@
    ||| w == "el"@
    ||| w == "al"@
    ||| w == "bin"@
    ||| w == "ibn"@
    ||| w == "ten"@
    ||| w == "ter"@
    ||| w == "of"@
    ||| w == "the"@
}

/// A word of at least three characters that starts with Mc, Mac, O', D'
/// or L'.
pub open spec fn prefixed_name(w: Seq<char>) -> bool {
    &&& w.len() >= 3
    &&& {
        ||| w[0] == 'M' && w[1] == 'c'
        ||| w[0] == 'M' && w[1] == 'a' && w[2] == 'c'
        ||| w[0] == 'O' && w[1] == '\''
        ||| w[0] == 'D' && w[1] == '\''
        ||| w[0] == 'L' && w[1] == '\''
    }
}

/// Two capitals followed by a character that is lowercase and not a capital.
pub open spec fn caps_then_lower(w: Seq<char>) -> bool {
    exists|i: int|
        2 <= i < w.len() && uppercase(w[i - 2]) && uppercase(w[i - 1]) && !uppercase(#[trigger] w[i])
            && lowercase(w[i])
}

/// Whether the word `raw` (brackets, periods and commas at its ends
/// ignored) looks mistyped: a word with a letter that is not a particle and
/// starts lowercase, or has two capitals before a lowercase letter (outside
/// the Mc / Mac / O' / D' / L' names), or is all capitals, three characters
/// or more, not only roman-numeral letters.
pub open spec fn word_warns(raw: Seq<char>) -> bool {
    let w = trim_marks(raw, Marks::Wrapping);
    &&& w.len() > 0
    &&& exists|i: int| 0 <= i < w.len() && alphabetic(#[trigger] w[i])
    &&& !is_particle(lowercase_of(w))
    &&& {
        ||| lowercase(w[0])
        ||| !prefixed_name(w) && caps_then_lower(w)
        ||| w == uppercase_of(w) && w.len() >= 3 && trim_marks(w, Marks::Roman).len() > 0
    }
}

/// Whether some word of `name` looks mistyped.
pub open spec fn unusual_capitalization(name: Seq<char>) -> bool {
    let ws = words(trim(name));
    exists|i: int| 0 <= i < ws.len() && word_warns(#[trigger] ws[i])
}

pub open spec fn word_views(v: Seq<Vec<char>>) -> Seq<Seq<char>> {
    v.map_values(|w: Vec<char>| w@)
}

/// The white-space separated words of `v`.
fn split_words(v: &[char]) -> (r: Vec<Vec<char>>)
    ensures
        word_views(r@) == words(v@),
{
    let ghost text = v@;
    let mut done: Vec<Vec<char>> = Vec::new();
    let mut cur: Vec<char> = Vec::new();
    let mut i: usize = 0;
    assert(text.take(0) =~= Seq::<char>::empty());
    assert(word_views(done@) =~= Seq::<Seq<char>>::empty());
    while i < v.len()
        invariant
            i <= v@.len(),
            text == v@,
            word_views(done@) == words_acc(text.take(i as int)).0,
            cur@ == words_acc(text.take(i as int)).1,
        decreases v@.len() - i,
    {
        let c = v[i];
        assert(text.take(i + 1).drop_last() =~= text.take(i as int));
        assert(text.take(i + 1).last() == c);
        if is_whitespace(c) {
            if cur.len() > 0 {
                let ghost before = done@;
                let ghost w = cur@;
                done.push(cur);
                assert(word_views(done@) =~= word_views(before).push(w));
                cur = Vec::new();
            }
        } else {
            cur.push(c);
        }
        i = i + 1;
    }
    assert(text.take(i as int) =~= text);
    if cur.len() > 0 {
        let ghost before = done@;
        let ghost w = cur@;
        done.push(cur);
        assert(word_views(done@) =~= word_views(before).push(w));
    }
    done
}

/// Whether `w` is one of the particles.
fn particle(w: &[char]) -> (b: bool)
    ensures
        b == is_particle(w@),
{
    chars_eq(w, chars_of("de").as_slice()) || chars_eq(w, chars_of("del").as_slice()) || chars_eq(
        w,
        chars_of("della").as_slice(),
    ) || chars_eq(w, chars_of("di").as_slice()) || chars_eq(w, chars_of("da").as_slice())
        || chars_eq(w, chars_of("van").as_slice()) || chars_eq(w, chars_of("von").as_slice())
        || chars_eq(w, chars_of("der").as_slice()) || chars_eq(w, chars_of("den").as_slice())
        || chars_eq(w, chars_of("la").as_slice()) || chars_eq(w, chars_of("le").as_slice())
        || chars_eq(w, chars_of("el").as_slice()) || chars_eq(w, chars_of("al").as_slice())
        || chars_eq(w, chars_of("bin").as_slice()) || chars_eq(w, chars_of("ibn").as_slice())
        || chars_eq(w, chars_of("ten").as_slice()) || chars_eq(w, chars_of("ter").as_slice())
        || chars_eq(w, chars_of("of").as_slice()) || chars_eq(w, chars_of("the").as_slice())
}

/// Whether `w` has two capitals followed by a lowercase character that is
/// not a capital.
fn has_caps_then_lower(w: &[char]) -> (b: bool)
    ensures
        b == caps_then_lower(w@),
{
    let mut cap_run: usize = 0;
    let mut i: usize = 0;
    while i < w.len()
        invariant
            i <= w@.len(),
            cap_run <= i,
            forall|j: int| i - cap_run <= j < i ==> uppercase(#[trigger] w@[j]),
            cap_run < i ==> !uppercase(w@[i - cap_run - 1]),
            forall|k: int|
                2 <= k < i ==> !(uppercase(w@[k - 2]) && uppercase(w@[k - 1]) && !uppercase(
                    #[trigger] w@[k],
                ) && lowercase(w@[k])),
        decreases w@.len() - i,
    {
        let c = w[i];
        if is_uppercase(c) {
            cap_run = cap_run + 1;
        } else {
            if cap_run >= 2 && is_lowercase(c) {
                assert(uppercase(w@[i - 2]) && uppercase(w@[i - 1]));
                return true;
            }
            proof {
                if i >= 2 && uppercase(w@[i - 2]) && uppercase(w@[i - 1]) {
                    assert(cap_run >= 2);
                }
            }
            cap_run = 0;
        }
        i = i + 1;
    }
    false
}

/// Whether the word `raw` looks mistyped.
fn warns(raw: &[char]) -> (b: bool)
    ensures
        b == word_warns(raw@),
{
    let w = strip_marks(raw, Marks::Wrapping);
    if w.len() == 0 {
        return false;
    }
    let mut letter = false;
    let mut i: usize = 0;
    while i < w.len()
        invariant
            i <= w@.len(),
            letter == exists|j: int| 0 <= j < i && alphabetic(#[trigger] w@[j]),
        decreases w@.len() - i,
    {
        if is_alphabetic(w[i]) {
            letter = true;
        }
        i = i + 1;
    }
    if !letter {
        return false;
    }
    let text = string_of(w.as_slice());
    let lower = chars_of(to_lowercase(text.as_str()).as_str());
    if particle(lower.as_slice()) {
        return false;
    }
    let prefixed = w.len() >= 3 && ((w[0] == 'M' && w[1] == 'c') || (w[0] == 'M' && w[1] == 'a'
        && w[2] == 'c') || (w[0] == 'O' && w[1] == '\'') || (w[0] == 'D' && w[1] == '\'') || (w[0]
        == 'L' && w[1] == '\''));
    if is_lowercase(w[0]) {
        return true;
    }
    if !prefixed && has_caps_then_lower(w.as_slice()) {
        return true;
    }
    let upper = chars_of(to_uppercase(text.as_str()).as_str());
    if chars_eq(w.as_slice(), upper.as_slice()) && w.len() >= 3 {
        let rest = strip_marks(w.as_slice(), Marks::Roman);
        if rest.len() > 0 {
            return true;
        }
    }
    false
}

/// Returns true when `name` looks like a capitalization typo.
pub fn name_has_unusual_capitalization(name: &str) -> (b: bool)
    ensures
        b == unusual_capitalization(name@),
{
    let chars = chars_of(name);
    let trimmed = trim_chars(chars.as_slice());
    if trimmed.len() == 0 {
        assert(words_acc(trimmed@) == (Seq::<Seq<char>>::empty(), Seq::<char>::empty()));
        return false;
    }
    let ws = split_words(trimmed.as_slice());
    let ghost wv = word_views(ws@);
    let mut i: usize = 0;
    while i < ws.len()
        invariant
            i <= ws@.len(),
            wv == word_views(ws@),
            wv == words(trim(name@)),
            forall|j: int| 0 <= j < i ==> !word_warns(#[trigger] wv[j]),
        decreases ws@.len() - i,
    {
        assert(wv[i as int] == ws@[i as int]@);
        if warns(ws[i].as_slice()) {
            return true;
        }
        i = i + 1;
    }
    false
}

// ── Laws of the check ──────────────────────────────────────────────────────

/// Reading `y` after text that ends between words adds `y`'s words.
proof fn lemma_words_acc_concat(x: Seq<char>, y: Seq<char>)
    requires
        words_acc(x).1.len() == 0,
    ensures
        words_acc(x + y) == (words_acc(x).0 + words_acc(y).0, words_acc(y).1),
    decreases y.len(),
{
    if y.len() == 0 {
        assert(x + y =~= x);
        assert(words_acc(x).0 + words_acc(y).0 =~= words_acc(x).0);
    } else {
        let y1 = y.drop_last();
        lemma_words_acc_concat(x, y1);
        assert((x + y).drop_last() =~= x + y1);
        assert((x + y).last() == y.last());
        let (wx, _cx) = words_acc(x);
        let (wy, cy) = words_acc(y1);
        if is_ws(y.last()) && cy.len() > 0 {
            assert((wx + wy).push(cy) =~= wx + wy.push(cy));
        }
    }
}

/// A white-space character ends the word being read.
proof fn lemma_words_ws_push(s: Seq<char>, c: char)
    requires
        is_ws(c),
    ensures
        words_acc(s.push(c)).1.len() == 0,
        words_acc(s.push(c)).0 == words(s),
{
    assert(s.push(c).drop_last() =~= s);
}

/// The words of `x` followed by `y`, when `x` ends between words.
proof fn lemma_words_concat(x: Seq<char>, y: Seq<char>)
    requires
        words_acc(x).1.len() == 0,
    ensures
        words(x + y) == words_acc(x).0 + words(y),
{
    lemma_words_acc_concat(x, y);
    let (wy, cy) = words_acc(y);
    if cy.len() > 0 {
        assert((words_acc(x).0 + wy).push(cy) =~= words_acc(x).0 + wy.push(cy));
    }
}

/// Trimming white space keeps the words.
proof fn lemma_words_trim(s: Seq<char>)
    ensures
        words(trim(s)) == words(s),
{
    lemma_words_trim_start(s);
    lemma_words_trim_end(trim_start(s));
}

proof fn lemma_words_trim_end(s: Seq<char>)
    ensures
        words(trim_end(s)) == words(s),
    decreases s.len(),
{
    if s.len() > 0 && is_ws(s.last()) {
        lemma_words_trim_end(s.drop_last());
        lemma_words_ws_push(s.drop_last(), s.last());
        assert(s.drop_last().push(s.last()) =~= s);
    }
}

proof fn lemma_words_trim_start(s: Seq<char>)
    ensures
        words(trim_start(s)) == words(s),
    decreases s.len(),
{
    if s.len() > 0 && is_ws(s[0]) {
        lemma_words_trim_start(s.drop_first());
        let head = seq![s[0]];
        lemma_words_ws_push(Seq::<char>::empty(), s[0]);
        assert(Seq::<char>::empty().push(s[0]) =~= head);
        assert(words(Seq::<char>::empty()) =~= Seq::<Seq<char>>::empty());
        lemma_words_concat(head, s.drop_first());
        assert(head + s.drop_first() =~= s);
        assert(Seq::<Seq<char>>::empty() + words(s.drop_first()) =~= words(s.drop_first()));
    }
}

/// The words of two names joined by a space are the words of the first,
/// then those of the second.
proof fn lemma_words_joined(a: Seq<char>, b: Seq<char>)
    ensures
        words(trim(a + seq![' '] + b)) == words(trim(a)) + words(trim(b)),
{
    lemma_words_trim(a + seq![' '] + b);
    lemma_words_trim(a);
    lemma_words_trim(b);
    lemma_words_ws_push(a, ' ');
    assert(a.push(' ') =~= a + seq![' ']);
    lemma_words_concat(a + seq![' '], b);
}

/// Two names joined by a space look mistyped exactly when one of them does.
pub proof fn lemma_joined_names(a: Seq<char>, b: Seq<char>)
    ensures
        unusual_capitalization(a + seq![' '] + b) == (unusual_capitalization(a)
            || unusual_capitalization(b)),
{
    lemma_words_joined(a, b);
    let wa = words(trim(a));
    let wb = words(trim(b));
    let w = words(trim(a + seq![' '] + b));
    assert(w == wa + wb);
    if unusual_capitalization(a + seq![' '] + b) {
        let i = choose|i: int| 0 <= i < w.len() && word_warns(#[trigger] w[i]);
        if i < wa.len() {
            assert(w[i] == wa[i]);
        } else {
            assert(w[i] == wb[i - wa.len()]);
        }
    }
    if unusual_capitalization(a) {
        let i = choose|i: int| 0 <= i < wa.len() && word_warns(#[trigger] wa[i]);
        assert(w[i] == wa[i]);
    }
    if unusual_capitalization(b) {
        let i = choose|i: int| 0 <= i < wb.len() && word_warns(#[trigger] wb[i]);
        assert(w[wa.len() + i] == wb[i]);
    }
}

pub open spec fn no_ws(s: Seq<char>) -> bool {
    forall|i: int| 0 <= i < s.len() ==> !is_ws(#[trigger] s[i])
}

pub open spec fn all_wrapping(s: Seq<char>) -> bool {
    forall|i: int| 0 <= i < s.len() ==> marks_has(Marks::Wrapping, #[trigger] s[i])
}

/// Text without white space is one word, or none when empty.
proof fn lemma_no_ws_words(s: Seq<char>)
    requires
        no_ws(s),
    ensures
        words_acc(s) == (Seq::<Seq<char>>::empty(), s),
        trim(s) == s,
    decreases s.len(),
{
    if s.len() > 0 {
        lemma_no_ws_words(s.drop_last());
        assert(s.drop_last().push(s.last()) =~= s);
        assert(!is_ws(s.last()));
        assert(!is_ws(s[0]));
    }
}

proof fn lemma_marks_start_prefix(p: Seq<char>, x: Seq<char>, m: Marks)
    requires
        forall|i: int| 0 <= i < p.len() ==> marks_has(m, #[trigger] p[i]),
    ensures
        trim_marks_start(p + x, m) == trim_marks_start(x, m),
    decreases p.len(),
{
    if p.len() > 0 {
        assert((p + x)[0] == p[0]);
        assert((p + x).drop_first() =~= p.drop_first() + x);
        lemma_marks_start_prefix(p.drop_first(), x, m);
    } else {
        assert(p + x =~= x);
    }
}

proof fn lemma_marks_end_suffix(x: Seq<char>, q: Seq<char>, m: Marks)
    requires
        forall|i: int| 0 <= i < q.len() ==> marks_has(m, #[trigger] q[i]),
    ensures
        trim_marks_end(x + q, m) == trim_marks_end(x, m),
    decreases q.len(),
{
    if q.len() > 0 {
        assert((x + q).last() == q.last());
        assert((x + q).drop_last() =~= x + q.drop_last());
        lemma_marks_end_suffix(x, q.drop_last(), m);
    } else {
        assert(x + q =~= x);
    }
}

proof fn lemma_marks_start_concat(s: Seq<char>, q: Seq<char>, m: Marks)
    ensures
        trim_marks_start(s, m).len() > 0 ==> trim_marks_start(s + q, m) == trim_marks_start(s, m) + q,
        trim_marks_start(s, m).len() == 0 ==> trim_marks_start(s + q, m) == trim_marks_start(q, m),
    decreases s.len(),
{
    if s.len() == 0 {
        assert(s + q =~= q);
    } else {
        assert((s + q)[0] == s[0]);
        assert((s + q).drop_first() =~= s.drop_first() + q);
        lemma_marks_start_concat(s.drop_first(), q, m);
    }
}

/// Brackets, periods and commas around a word are ignored.
proof fn lemma_trim_wrapped(p: Seq<char>, s: Seq<char>, q: Seq<char>)
    requires
        all_wrapping(p),
        all_wrapping(q),
    ensures
        trim_marks(p + s + q, Marks::Wrapping) == trim_marks(s, Marks::Wrapping),
{
    let m = Marks::Wrapping;
    assert(p + s + q =~= p + (s + q));
    lemma_marks_start_prefix(p, s + q, m);
    lemma_marks_start_concat(s, q, m);
    if trim_marks_start(s, m).len() > 0 {
        lemma_marks_end_suffix(trim_marks_start(s, m), q, m);
    } else {
        lemma_marks_start_prefix(q, Seq::<char>::empty(), m);
        assert(q + Seq::<char>::empty() =~= q);
    }
}

/// A word wrapped in brackets, periods or commas looks mistyped exactly when
/// the word does: "(Wesley)" is as quiet as "Wesley".
pub proof fn lemma_wrapped_name(p: Seq<char>, s: Seq<char>, q: Seq<char>)
    requires
        no_ws(s),
        all_wrapping(p),
        all_wrapping(q),
    ensures
        unusual_capitalization(p + s + q) == unusual_capitalization(s),
{
    let x = p + s + q;
    assert forall|i: int| 0 <= i < x.len() implies !is_ws(#[trigger] x[i]) by {
        if i < p.len() {
            assert(x[i] == p[i]);
            assert(marks_has(Marks::Wrapping, p[i]));
        } else if i < p.len() + s.len() {
            assert(x[i] == s[i - p.len()]);
        } else {
            assert(x[i] == q[i - p.len() - s.len()]);
            assert(marks_has(Marks::Wrapping, q[i - p.len() - s.len()]));
        }
    }
    lemma_no_ws_words(x);
    lemma_no_ws_words(s);
    lemma_trim_wrapped(p, s, q);
    assert(word_warns(x) == word_warns(s));
    if x.len() > 0 {
        assert(words(trim(x)) =~= seq![x]);
    } else {
        assert(words(trim(x)) =~= Seq::<Seq<char>>::empty());
    }
    if s.len() > 0 {
        assert(words(trim(s)) =~= seq![s]);
    } else {
        assert(words(trim(s)) =~= Seq::<Seq<char>>::empty());
        assert(trim_marks_start(s, Marks::Wrapping) =~= s);
    }
    if s.len() == 0 {
        assert(trim_marks_end(trim_marks_start(s, Marks::Wrapping), Marks::Wrapping) =~= s);
        assert(!word_warns(s));
    }
    if unusual_capitalization(x) {
        assert(word_warns(words(trim(x))[0]));
    }
    if unusual_capitalization(s) {
        assert(word_warns(words(trim(s))[0]));
    }
    if x.len() > 0 && word_warns(x) {
        assert(words(trim(x))[0] == x);
    }
    if s.len() > 0 && word_warns(s) {
        assert(words(trim(s))[0] == s);
    }
}

/// A word whose lowercase form is one of the particles "de", "del",
/// "della", "di", "da", "van", "von", "der", "den", "la", "le", "el", "al",
/// "bin", "ibn", "ten", "ter", "of" or "the" (brackets, periods and commas
/// at its ends ignored) never looks mistyped.
pub proof fn lemma_particle_quiet(w: Seq<char>)
    requires
        ({
            let l = lowercase_of(trim_marks(w, Marks::Wrapping));
            ||| l == "de"@
            ||| l == "del"@
            ||| l == "della"@
            ||| l == "di"@
            ||| l == "da"@
            ||| l == "van"@
            ||| l == "von"@
            ||| l == "der"@
            ||| l == "den"@
            ||| l == "la"@
            ||| l == "le"@
            ||| l == "el"@
            ||| l == "al"@
            ||| l == "bin"@
            ||| l == "ibn"@
            ||| l == "ten"@
            ||| l == "ter"@
            ||| l == "of"@
            ||| l == "the"@
        }),
    ensures
        !word_warns(w),
{
}

/// A particle between two names changes nothing: "Ludwig von Mises" looks
/// mistyped exactly when "Ludwig Mises" does, for every particle of the
/// list above, whatever the names around it.
pub proof fn lemma_particle_between(a: Seq<char>, p: Seq<char>, b: Seq<char>)
    requires
        no_ws(p),
        ({
            let l = lowercase_of(trim_marks(p, Marks::Wrapping));
            ||| l == "de"@
            ||| l == "del"@
            ||| l == "della"@
            ||| l == "di"@
            ||| l == "da"@
            ||| l == "van"@
            ||| l == "von"@
            ||| l == "der"@
            ||| l == "den"@
            ||| l == "la"@
            ||| l == "le"@
            ||| l == "el"@
            ||| l == "al"@
            ||| l == "bin"@
            ||| l == "ibn"@
            ||| l == "ten"@
            ||| l == "ter"@
            ||| l == "of"@
            ||| l == "the"@
        }),
    ensures
        unusual_capitalization(a + seq![' '] + p + seq![' '] + b) == unusual_capitalization(
            a + seq![' '] + b,
        ),
{
    lemma_particle_quiet(p);
    lemma_no_ws_words(p);
    if p.len() > 0 {
        assert(words(trim(p)) =~= seq![p]);
    } else {
        assert(words(trim(p)) =~= Seq::<Seq<char>>::empty());
    }
    assert(!unusual_capitalization(p));
    lemma_joined_names(a, p);
    lemma_joined_names(a + seq![' '] + p, b);
    lemma_joined_names(a, b);
}

} // verus!
