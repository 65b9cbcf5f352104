//! Line classification and ANSI-colored layout: headers, section titles,
//! table rows, and bordered table boxes.

use vstd::prelude::*;
use crate::text::{is_space, space_char, trim_spec, trim_chars, lines_spec,
    views_of, split_lines, join_spec, join_lines, to_chars, string_of, copy_range};
use crate::cleanup::{find_char_spec, find_from, space_run, space_run_at};

verus! {

// ---------------------------------------------------------------------------
// ANSI escape sequences
// ---------------------------------------------------------------------------

/// The SGR reset sequence.
pub open spec fn esc_reset() -> Seq<char> {
    seq!['\u{1b}', '[', '0', 'm']
}

/// The SGR bold sequence.
pub open spec fn esc_bold() -> Seq<char> {
    seq!['\u{1b}', '[', '1', 'm']
}

/// The SGR dim sequence.
pub open spec fn esc_dim() -> Seq<char> {
    seq!['\u{1b}', '[', '2', 'm']
}

/// The SGR cyan foreground sequence.
pub open spec fn esc_cyan() -> Seq<char> {
    seq!['\u{1b}', '[', '3', '6', 'm']
}

/// The SGR yellow foreground sequence.
pub open spec fn esc_yellow() -> Seq<char> {
    seq!['\u{1b}', '[', '3', '3', 'm']
}

/// Appends the reset sequence.
fn push_reset(out: &mut Vec<char>)
    ensures
        final(out)@ == old(out)@ + esc_reset(),
{
    out.push('\u{1b}');
    out.push('[');
    out.push('0');
    out.push('m');
    proof {
        assert(out@ =~= old(out)@ + esc_reset());
    }
}

/// Appends the bold sequence.
fn push_bold(out: &mut Vec<char>)
    ensures
        final(out)@ == old(out)@ + esc_bold(),
{
    out.push('\u{1b}');
    out.push('[');
    out.push('1');
    out.push('m');
    proof {
        assert(out@ =~= old(out)@ + esc_bold());
    }
}

/// Appends the dim sequence.
fn push_dim(out: &mut Vec<char>)
    ensures
        final(out)@ == old(out)@ + esc_dim(),
{
    out.push('\u{1b}');
    out.push('[');
    out.push('2');
    out.push('m');
    proof {
        assert(out@ =~= old(out)@ + esc_dim());
    }
}

/// Appends the cyan sequence.
fn push_cyan(out: &mut Vec<char>)
    ensures
        final(out)@ == old(out)@ + esc_cyan(),
{
    out.push('\u{1b}');
    out.push('[');
    out.push('3');
    out.push('6');
    out.push('m');
    proof {
        assert(out@ =~= old(out)@ + esc_cyan());
    }
}

/// Appends the yellow sequence.
fn push_yellow(out: &mut Vec<char>)
    ensures
        final(out)@ == old(out)@ + esc_yellow(),
{
    out.push('\u{1b}');
    out.push('[');
    out.push('3');
    out.push('3');
    out.push('m');
    proof {
        assert(out@ =~= old(out)@ + esc_yellow());
    }
}

// ---------------------------------------------------------------------------
// Character classes from the standard library
// ---------------------------------------------------------------------------

/// Whether a character counts as alphabetic.
pub uninterp spec fn alphabetic(c: char) -> bool;

/// Relies on `char::is_alphabetic`: whether the character has the Unicode
/// Alphabetic property, a fact of the character alone.
#[verifier::external_body]
pub fn alphabetic_char(c: char) -> (r: bool)
    ensures
        r == alphabetic(c),
{
    c.is_alphabetic()
}

/// The uppercase mapping of a character, one to three characters.
pub uninterp spec fn upper_of(c: char) -> Seq<char>;

/// Relies on `char::to_uppercase`: the full Unicode uppercase mapping of the
/// character, a function of the character alone.
#[verifier::external_body]
pub fn upper_chars(c: char) -> (r: Vec<char>)
    ensures
        r@ == upper_of(c),
{
    c.to_uppercase().collect()
}

// ---------------------------------------------------------------------------
// Table-row classification
// ---------------------------------------------------------------------------

/// No run of two slashes anywhere in `s`.
pub open spec fn no_double_slash(s: Seq<char>) -> bool {
    forall|k: int| 0 <= k && k + 1 < s.len() ==> !(#[trigger] s[k] == '/' && s[k + 1] == '/')
}

/// No `@` anywhere in `s`.
pub open spec fn no_at(s: Seq<char>) -> bool {
    forall|k: int| 0 <= k < s.len() ==> s[k] != '@'
}

/// Whether a line is a table row: the trimmed line has at least 15
/// characters and a colon; the label before the first colon has 3 to 30
/// characters, no `//` and no `@`; after the colon come two blanks (space
/// then space or tab) and then some non-blank value.
pub open spec fn table_row_spec(line: Seq<char>) -> bool {
    let t = trim_spec(line);
    let p = find_char_spec(t, ':');
    &&& t.len() >= 15
    &&& p >= 0
    &&& {
        let after = t.skip(p + 1);
        &&& after.len() >= 2
        &&& after[0] == ' '
        &&& (after[1] == ' ' || after[1] == '\t')
        &&& trim_spec(after).len() > 0
    }
    &&& 3 <= p <= 30
    &&& no_double_slash(t.take(p))
    &&& no_at(t.take(p))
}

/// Classifies one line as a table row.
pub fn is_table_row_chars(line: &Vec<char>) -> (r: bool)
    ensures
        r == table_row_spec(line@),
{
    let t = trim_chars(line);
    let n: usize = t.len();
    if n < 15 {
        return false;
    }
    let p: usize = match find_from(&t, 0, ':') {
        Some(p) => p,
        None => {
            proof {
                assert(t@.skip(0) =~= t@);
            }
            return false;
        },
    };
    proof {
        assert(t@.skip(0) =~= t@);
        assert(find_char_spec(t@, ':') == p);
    }
    if !(3 <= p && p <= 30) {
        return false;
    }
    let ghost after = t@.skip(p + 1);
    proof {
        assert(forall|k: int| 0 <= k < after.len() ==> after[k] == t@[p + 1 + k]);
    }
    if !(n - p - 1 >= 2 && t[p + 1] == ' ' && (t[p + 2] == ' ' || t[p + 2] == '\t')) {
        return false;
    }
    let after_vec = copy_range(&t, p + 1, n);
    proof {
        assert(after_vec@ =~= after);
    }
    let after_trim = trim_chars(&after_vec);
    if after_trim.len() == 0 {
        return false;
    }
    // check the label for `//` and `@`
    let mut k: usize = 0;
    let mut label_ok: bool = true;
    while k < p
        invariant
            k <= p < t@.len(),
            label_ok == (forall|q: int|
                0 <= q < k ==> #[trigger] t@[q] != '@' && !(q + 1 < p && t@[q] == '/' && t@[q + 1] == '/')),
        decreases p - k,
    {
        if t[k] == '@' {
            label_ok = false;
        }
        if k + 1 < p && t[k] == '/' && t[k + 1] == '/' {
            label_ok = false;
        }
        k = k + 1;
    }
    proof {
        let label = t@.take(p as int);
        assert(forall|q: int| 0 <= q < p ==> label[q] == t@[q]);
        if label_ok {
            assert(no_double_slash(label) && no_at(label));
        } else {
            assert(!(no_double_slash(label) && no_at(label)));
        }
    }
    label_ok
}

// ---------------------------------------------------------------------------
// Header classification
// ---------------------------------------------------------------------------

/// Length of the run of non-whitespace characters at the start of `s`.
pub open spec fn nonspace_run(s: Seq<char>) -> nat
    decreases s.len(),
{
    if s.len() > 0 && !is_space(s[0]) {
        (1 + nonspace_run(s.skip(1))) as nat
    } else {
        0
    }
}

/// The whitespace-separated words of `s`, in order.
pub open spec fn words_of(s: Seq<char>) -> Seq<Seq<char>>
    decreases s.len(),
{
    if s.len() == 0 {
        Seq::empty()
    } else if is_space(s[0]) {
        words_of(s.skip(1))
    } else {
        let r0 = nonspace_run(s) as int;
        let r = if r0 > s.len() {
            s.len() as int
        } else {
            r0
        };
        seq![s.take(r)] + words_of(s.skip(r))
    }
}

/// The alphabetic characters of `s`, in order.
pub open spec fn filter_alpha(s: Seq<char>) -> Seq<char>
    decreases s.len(),
{
    if s.len() == 0 {
        Seq::empty()
    } else if alphabetic(s[0]) {
        seq![s[0]] + filter_alpha(s.skip(1))
    } else {
        filter_alpha(s.skip(1))
    }
}

/// The concatenated uppercase mappings of the characters of `s`.
pub open spec fn upper_flat(s: Seq<char>) -> Seq<char>
    decreases s.len(),
{
    if s.len() == 0 {
        Seq::empty()
    } else {
        upper_of(s[0]) + upper_flat(s.skip(1))
    }
}

/// A word counts as shouted when its alphabetic part has at least two
/// characters and equals its own uppercase form.
pub open spec fn caps_word(w: Seq<char>) -> bool {
    let ls = filter_alpha(w);
    ls.len() >= 2 && upper_flat(ls) == ls
}

/// A line counts as centered when more than ten whitespace characters lead
/// it and the trimmed text stays under 50 characters.
pub open spec fn centered_spec(line: Seq<char>) -> bool {
    space_run(line) > 10 && trim_spec(line).len() < 50
}

/// A line counts as shouted when it has at least two words, every one of
/// them shouted.
pub open spec fn shouty_spec(t: Seq<char>) -> bool {
    let ws = words_of(t);
    ws.len() >= 2 && forall|k: int| 0 <= k < ws.len() ==> caps_word(#[trigger] ws[k])
}

/// Whether a line is a header: non-empty, at most 60 characters trimmed, and
/// either centered or shouted.
pub open spec fn header_spec(line: Seq<char>) -> bool {
    let t = trim_spec(line);
    &&& t.len() > 0
    &&& t.len() <= 60
    &&& (centered_spec(line) || shouty_spec(t))
}

/// Counts the non-whitespace characters in `v` from position `i` on.
fn nonspace_run_at(v: &Vec<char>, i: usize) -> (r: usize)
    requires
        i <= v@.len(),
    ensures
        r == nonspace_run(v@.skip(i as int)),
        i + r <= v@.len(),
{
    let n: usize = v.len();
    let mut j: usize = i;
    while j < n && !space_char(v[j])
        invariant
            i <= j <= n,
            n == v@.len(),
            nonspace_run(v@.skip(i as int)) == (j - i) + nonspace_run(v@.skip(j as int)),
        decreases n - j,
    {
        proof {
            assert(v@.skip(j as int)[0] == v@[j as int]);
            assert(v@.skip(j as int).skip(1) =~= v@.skip(j as int + 1));
        }
        j = j + 1;
    }
    proof {
        if j < n {
            assert(v@.skip(j as int)[0] == v@[j as int]);
        }
        assert(nonspace_run(v@.skip(j as int)) == 0);
    }
    j - i
}

/// Splits a text into its whitespace-separated words.
pub fn split_words(t: &Vec<char>) -> (r: Vec<Vec<char>>)
    ensures
        views_of(r@) == words_of(t@),
{
    let n: usize = t.len();
    let mut r: Vec<Vec<char>> = Vec::new();
    let mut i: usize = 0;
    proof {
        assert(t@.skip(0) =~= t@);
        assert(views_of(r@) =~= Seq::<Seq<char>>::empty());
        assert(views_of(r@) + words_of(t@) =~= words_of(t@));
    }
    while i < n
        invariant
            i <= n,
            n == t@.len(),
            words_of(t@) == views_of(r@) + words_of(t@.skip(i as int)),
        decreases n - i,
    {
        let ghost rem = t@.skip(i as int);
        proof {
            assert(rem[0] == t@[i as int]);
            assert(rem.skip(1) =~= t@.skip(i as int + 1));
        }
        if space_char(t[i]) {
            i = i + 1;
        } else {
            let run = nonspace_run_at(t, i);
            let word = copy_range(t, i, i + run);
            proof {
                assert(nonspace_run(rem) == run);
                assert(word@ =~= rem.take(run as int));
                assert(rem.skip(run as int) =~= t@.skip(i as int + run as int));
            }
            r.push(word);
            proof {
                assert(views_of(r@) =~= views_of(r@.drop_last()).push(word@));
                assert(views_of(r@) + words_of(t@.skip(i as int + run as int)) =~= views_of(
                    r@.drop_last(),
                ) + (seq![rem.take(run as int)] + words_of(rem.skip(run as int))));
            }
            i = i + run;
        }
    }
    proof {
        assert(t@.skip(n as int) =~= Seq::<char>::empty());
        assert(views_of(r@) + words_of(Seq::<char>::empty()) =~= views_of(r@));
    }
    r
}

/// Whether two character vectors hold the same characters.
fn chars_eq(a: &Vec<char>, b: &Vec<char>) -> (r: bool)
    ensures
        r == (a@ == b@),
{
    let n: usize = a.len();
    if n != b.len() {
        return false;
    }
    let mut i: usize = 0;
    while i < n
        invariant
            i <= n,
            n == a@.len() == b@.len(),
            forall|k: int| 0 <= k < i ==> a@[k] == b@[k],
        decreases n - i,
    {
        if a[i] != b[i] {
            return false;
        }
        i = i + 1;
    }
    proof {
        assert(a@ =~= b@);
    }
    true
}

/// Tests whether a word is shouted.
fn word_caps(w: &Vec<char>) -> (r: bool)
    ensures
        r == caps_word(w@),
{
    let n: usize = w.len();
    let mut letters: Vec<char> = Vec::new();
    let mut i: usize = 0;
    proof {
        assert(w@.skip(0) =~= w@);
        assert(letters@ + filter_alpha(w@) =~= filter_alpha(w@));
    }
    while i < n
        invariant
            i <= n,
            n == w@.len(),
            filter_alpha(w@) == letters@ + filter_alpha(w@.skip(i as int)),
        decreases n - i,
    {
        proof {
            assert(w@.skip(i as int)[0] == w@[i as int]);
            assert(w@.skip(i as int).skip(1) =~= w@.skip(i as int + 1));
        }
        let c = w[i];
        if alphabetic_char(c) {
            letters.push(c);
            proof {
                assert(letters@ + filter_alpha(w@.skip(i as int + 1)) =~= letters@.drop_last() + (
                seq![c] + filter_alpha(w@.skip(i as int + 1))));
            }
        }
        i = i + 1;
    }
    proof {
        assert(w@.skip(n as int) =~= Seq::<char>::empty());
        assert(letters@ + filter_alpha(Seq::<char>::empty()) =~= letters@);
    }
    if letters.len() < 2 {
        return false;
    }
    // build the uppercase form and compare
    let m: usize = letters.len();
    let mut upper: Vec<char> = Vec::new();
    let mut j: usize = 0;
    proof {
        assert(letters@.skip(0) =~= letters@);
        assert(upper@ + upper_flat(letters@) =~= upper_flat(letters@));
    }
    while j < m
        invariant
            j <= m,
            m == letters@.len(),
            upper_flat(letters@) == upper@ + upper_flat(letters@.skip(j as int)),
        decreases m - j,
    {
        proof {
            assert(letters@.skip(j as int)[0] == letters@[j as int]);
            assert(letters@.skip(j as int).skip(1) =~= letters@.skip(j as int + 1));
        }
        let ghost upold = upper@;
        let mut up = upper_chars(letters[j]);
        upper.append(&mut up);
        proof {
            assert(upper@ + upper_flat(letters@.skip(j as int + 1)) =~= upold + (upper_of(
                letters@[j as int],
            ) + upper_flat(letters@.skip(j as int + 1))));
        }
        j = j + 1;
    }
    proof {
        assert(letters@.skip(m as int) =~= Seq::<char>::empty());
        assert(upper@ + upper_flat(Seq::<char>::empty()) =~= upper@);
    }
    chars_eq(&upper, &letters)
}

/// Classifies one line as a header.
pub fn is_header_chars(line: &Vec<char>) -> (r: bool)
    ensures
        r == header_spec(line@),
{
    let t = trim_chars(line);
    let n: usize = t.len();
    if n == 0 || n > 60 {
        return false;
    }
    let leading = space_run_at(line, 0);
    proof {
        assert(line@.skip(0) =~= line@);
    }
    if leading > 10 && n < 50 {
        return true;
    }
    let words = split_words(&t);
    let wn: usize = words.len();
    if wn < 2 {
        proof {
            assert(words_of(t@).len() == views_of(words@).len());
        }
        return false;
    }
    let mut k: usize = 0;
    let mut all_caps: bool = true;
    while k < wn
        invariant
            k <= wn,
            wn == words@.len(),
            views_of(words@) == words_of(t@),
            all_caps == (forall|q: int| 0 <= q < k ==> caps_word(#[trigger] views_of(words@)[q])),
        decreases wn - k,
    {
        if !word_caps(&words[k]) {
            proof {
                assert(views_of(words@)[k as int] == words@[k as int]@);
            }
            all_caps = false;
        }
        proof {
            assert(views_of(words@)[k as int] == words@[k as int]@);
        }
        k = k + 1;
    }
    all_caps
}

} // verus!

verus! {

// ---------------------------------------------------------------------------
// Table row colorization
// ---------------------------------------------------------------------------

/// A token counts as a label when it ends with a colon, has more than one
/// character, and starts with an alphabetic character.
pub open spec fn is_label_spec(w: Seq<char>) -> bool {
    w.len() > 1 && w[w.len() - 1] == ':' && alphabetic(w[0])
}

/// The colorized table row: the row is tokenized by whitespace; each
/// whitespace-delimited token that is a label is wrapped in yellow, any
/// other token passes through unchanged, and the whitespace between tokens
/// stands verbatim.
pub open spec fn row_color_spec(s: Seq<char>) -> Seq<char>
    decreases s.len(),
{
    if s.len() == 0 {
        Seq::empty()
    } else if is_space(s[0]) {
        seq![s[0]] + row_color_spec(s.skip(1))
    } else {
        let r0 = nonspace_run(s) as int;
        let r = if r0 > s.len() {
            s.len() as int
        } else {
            r0
        };
        let tok = s.take(r);
        (if is_label_spec(tok) {
            esc_yellow() + tok + esc_reset()
        } else {
            tok
        }) + row_color_spec(s.skip(r))
    }
}

/// Colors the label tokens of one table row.
pub fn format_table_row_chars(line: &Vec<char>) -> (r: Vec<char>)
    ensures
        r@ == row_color_spec(line@),
{
    let n: usize = line.len();
    let mut out: Vec<char> = Vec::new();
    let mut i: usize = 0;
    proof {
        assert(line@.skip(0) =~= line@);
        assert(out@ + row_color_spec(line@) =~= row_color_spec(line@));
    }
    while i < n
        invariant
            i <= n,
            n == line@.len(),
            row_color_spec(line@) == out@ + row_color_spec(line@.skip(i as int)),
        decreases n - i,
    {
        let ghost rem = line@.skip(i as int);
        proof {
            assert(rem[0] == line@[i as int]);
            assert(rem.skip(1) =~= line@.skip(i as int + 1));
        }
        let c = line[i];
        if space_char(c) {
            out.push(c);
            proof {
                assert(out@ + row_color_spec(line@.skip(i as int + 1)) =~= out@.drop_last() + (
                seq![c] + row_color_spec(rem.skip(1))));
            }
            i = i + 1;
        } else {
            let run = nonspace_run_at(line, i);
            let tok = copy_range(line, i, i + run);
            proof {
                assert(nonspace_run(rem) == run);
                assert(tok@ =~= rem.take(run as int));
                assert(rem.skip(run as int) =~= line@.skip(i as int + run as int));
            }
            let ghost outg = out@;
            let lbl = tok.len() > 1 && tok[tok.len() - 1] == ':' && alphabetic_char(tok[0]);
            if lbl {
                push_yellow(&mut out);
                let mut tk = tok;
                out.append(&mut tk);
                push_reset(&mut out);
                proof {
                    assert(out@ =~= outg + (esc_yellow() + rem.take(run as int) + esc_reset()));
                    assert(out@ + row_color_spec(line@.skip(i as int + run as int)) =~= outg + ((
                    esc_yellow() + rem.take(run as int) + esc_reset()) + row_color_spec(
                        rem.skip(run as int),
                    )));
                }
            } else {
                let mut tk = tok;
                out.append(&mut tk);
                proof {
                    assert(out@ + row_color_spec(line@.skip(i as int + run as int)) =~= outg + (
                    rem.take(run as int) + row_color_spec(rem.skip(run as int))));
                }
            }
            i = i + run;
        }
    }
    proof {
        assert(line@.skip(n as int) =~= Seq::<char>::empty());
    }
    out
}

// ---------------------------------------------------------------------------
// Table boxes
// ---------------------------------------------------------------------------

/// The larger of two integers.
pub open spec fn max2(a: int, b: int) -> int {
    if a > b {
        a
    } else {
        b
    }
}

/// The widest row of the block, measured in characters.
pub open spec fn max_width(rows: Seq<Seq<char>>) -> int
    decreases rows.len(),
{
    if rows.len() == 0 {
        0
    } else {
        max2(rows[0].len() as int, max_width(rows.skip(1)))
    }
}

/// `c`, `n` times over.
pub open spec fn char_repeat(c: char, n: int) -> Seq<char>
    decreases n,
{
    if n <= 0 {
        Seq::empty()
    } else {
        seq![c] + char_repeat(c, n - 1)
    }
}

/// Every character of a repeat is `c`, and its length is `n`.
pub proof fn lemma_char_repeat(c: char, n: int)
    ensures
        char_repeat(c, n).len() == (if n >= 0 {
            n
        } else {
            0
        }),
        forall|k: int| 0 <= k < char_repeat(c, n).len() ==> char_repeat(c, n)[k] == c,
    decreases n,
{
    if n > 0 {
        lemma_char_repeat(c, n - 1);
    }
}

/// The dimmed top border of a table box.
pub open spec fn top_border(w: int) -> Seq<char> {
    esc_dim() + seq!['\u{250C}'] + char_repeat('\u{2500}', w + 2) + seq!['\u{2510}'] + esc_reset()
}

/// The dimmed bottom border of a table box.
pub open spec fn bottom_border(w: int) -> Seq<char> {
    esc_dim() + seq!['\u{2514}'] + char_repeat('\u{2500}', w + 2) + seq!['\u{2518}'] + esc_reset()
}

/// One boxed row: dimmed side bars around the colorized row, padded to the
/// box width.
pub open spec fn boxed_row(row: Seq<char>, w: int) -> Seq<char> {
    esc_dim() + seq!['\u{2502}'] + esc_reset() + seq![' '] + row_color_spec(row) + char_repeat(
        ' ',
        w - row.len() + 1,
    ) + esc_dim() + seq!['\u{2502}'] + esc_reset()
}

/// The lines of a bordered table box around the given rows.
pub open spec fn table_box_spec(rows: Seq<Seq<char>>) -> Seq<Seq<char>> {
    let w = max_width(rows);
    seq![top_border(w)] + rows.map_values(|r: Seq<char>| boxed_row(r, w)) + seq![bottom_border(w)]
}

/// Appends `cnt` copies of `c`.
fn push_repeat(out: &mut Vec<char>, c: char, cnt: usize)
    ensures
        final(out)@ == old(out)@ + char_repeat(c, cnt as int),
{
    let mut j: usize = 0;
    proof {
        lemma_char_repeat(c, cnt as int);
        assert(out@ =~= old(out)@ + char_repeat(c, 0));
    }
    while j < cnt
        invariant
            j <= cnt,
            out@ == old(out)@ + char_repeat(c, j as int),
        decreases cnt - j,
    {
        out.push(c);
        j = j + 1;
        proof {
            lemma_char_repeat(c, j as int);
            lemma_char_repeat(c, j as int - 1);
            assert(out@ =~= old(out)@ + char_repeat(c, j as int));
        }
    }
}

/// Builds one border line.
fn build_border(w: usize, top: bool) -> (r: Vec<char>)
    ensures
        top ==> r@ == top_border(w as int),
        !top ==> r@ == bottom_border(w as int),
{
    let mut out: Vec<char> = Vec::new();
    push_dim(&mut out);
    if top {
        out.push('\u{250C}');
    } else {
        out.push('\u{2514}');
    }
    push_repeat(&mut out, '\u{2500}', w);
    out.push('\u{2500}');
    out.push('\u{2500}');
    if top {
        out.push('\u{2510}');
    } else {
        out.push('\u{2518}');
    }
    push_reset(&mut out);
    proof {
        lemma_char_repeat('\u{2500}', w as int);
        lemma_char_repeat('\u{2500}', w as int + 2);
        if top {
            assert(out@ =~= top_border(w as int));
        } else {
            assert(out@ =~= bottom_border(w as int));
        }
    }
    out
}

/// Builds the bordered, colorized table box as lines.
pub fn format_table_lines(rows: &Vec<Vec<char>>) -> (r: Vec<Vec<char>>)
    ensures
        views_of(r@) == table_box_spec(views_of(rows@)),
{
    let n: usize = rows.len();
    let ghost t = views_of(rows@);
    // find the widest row
    let mut mw: usize = 0;
    let mut i: usize = 0;
    proof {
        assert(t.skip(0) =~= t);
    }
    while i < n
        invariant
            i <= n,
            n == t.len(),
            t == views_of(rows@),
            max_width(t) == max2(mw as int, max_width(t.skip(i as int))),
            forall|k: int| 0 <= k < i ==> t[k].len() <= mw,
        decreases n - i,
    {
        proof {
            assert(t.skip(i as int)[0] == t[i as int]);
            assert(t.skip(i as int).skip(1) =~= t.skip(i as int + 1));
        }
        let l: usize = rows[i].len();
        if l > mw {
            mw = l;
        }
        i = i + 1;
    }
    proof {
        assert(t.skip(n as int) =~= Seq::<Seq<char>>::empty());
        assert(max_width(t) == mw || n == 0);
        if n == 0 {
            assert(max_width(t) == 0);
        }
    }
    let width: usize = if n == 0 {
        0
    } else {
        mw
    };
    proof {
        assert(width == max_width(t));
    }
    let mut out: Vec<Vec<char>> = Vec::new();
    out.push(build_border(width, true));
    let mut i2: usize = 0;
    while i2 < n
        invariant
            i2 <= n,
            n == t.len(),
            t == views_of(rows@),
            width == max_width(t),
            forall|k: int| 0 <= k < t.len() ==> t[k].len() <= width,
            out@.len() == i2 + 1,
            out@[0]@ == top_border(width as int),
            forall|k: int| 0 <= k < i2 ==> #[trigger] out@[k + 1]@ == boxed_row(
                t[k],
                width as int,
            ),
        decreases n - i2,
    {
        let mut line: Vec<char> = Vec::new();
        push_dim(&mut line);
        line.push('\u{2502}');
        push_reset(&mut line);
        line.push(' ');
        let mut colored = format_table_row_chars(&rows[i2]);
        line.append(&mut colored);
        proof {
            assert(t[i2 as int] == rows@[i2 as int]@);
            assert(t[i2 as int].len() <= width);
        }
        let pad: usize = width - rows[i2].len();
        push_repeat(&mut line, ' ', pad);
        line.push(' ');
        push_dim(&mut line);
        line.push('\u{2502}');
        push_reset(&mut line);
        proof {
            lemma_char_repeat(' ', pad as int);
            lemma_char_repeat(' ', pad as int + 1);
            assert(char_repeat(' ', pad as int + 1) =~= char_repeat(' ', pad as int).push(' '));
            assert(line@ =~= boxed_row(t[i2 as int], width as int));
        }
        out.push(line);
        i2 = i2 + 1;
    }
    let ghost outpre = out@;
    out.push(build_border(width, false));
    proof {
        let spec_box = table_box_spec(t);
        let mapped = t.map_values(|r2: Seq<char>| boxed_row(r2, width as int));
        assert(spec_box.len() == n + 2);
        assert(views_of(out@).len() == n + 2);
        assert forall|q: int| 0 <= q < n + 2 implies views_of(out@)[q] == spec_box[q] by {
            assert(views_of(out@)[q] == out@[q]@);
            if q == 0 {
                assert(out@[0] == outpre[0]);
                assert(spec_box[0] == top_border(width as int));
            } else if q <= n {
                assert(mapped[q - 1] == boxed_row(t[q - 1], width as int));
                assert(spec_box[q] == mapped[q - 1]);
                assert(out@[q] == outpre[q]);
                assert(outpre[(q - 1) + 1]@ == boxed_row(t[q - 1], width as int));
            } else {
                assert(spec_box[q] == bottom_border(width as int));
            }
        }
        assert(views_of(out@) =~= table_box_spec(t));
    }
    out
}

} // verus!

verus! {

// ---------------------------------------------------------------------------
// Line coloring and table grouping
// ---------------------------------------------------------------------------

/// A line whose trimmed text is empty.
pub open spec fn blank_line_spec(l: Seq<char>) -> bool {
    trim_spec(l).len() == 0
}

/// No two adjacent plain spaces anywhere in `s`.
pub open spec fn no_double_space(s: Seq<char>) -> bool {
    forall|k: int| 0 <= k && k + 1 < s.len() ==> !(#[trigger] s[k] == ' ' && s[k + 1] == ' ')
}

/// Whether a line is a section title: the trimmed text ends with a colon,
/// stays under 50 characters, and the line has no double-space run.
pub open spec fn section_title_spec(l: Seq<char>) -> bool {
    let t = trim_spec(l);
    &&& t.len() > 0
    &&& t[t.len() - 1] == ':'
    &&& t.len() < 50
    &&& no_double_space(l)
}

/// One line with its color applied: bold cyan for a header, bold yellow for
/// a section title, unchanged otherwise.
pub open spec fn line_colored(l: Seq<char>) -> Seq<char> {
    if header_spec(l) {
        esc_bold() + esc_cyan() + l + esc_reset()
    } else if section_title_spec(l) {
        esc_bold() + esc_yellow() + l + esc_reset()
    } else {
        l
    }
}

/// Number of consecutive lines from `k` on that are table rows or blank.
pub open spec fn table_span_len(ls: Seq<Seq<char>>, k: int) -> nat
    decreases ls.len() - k,
{
    if k < 0 || k >= ls.len() {
        0
    } else if table_row_spec(ls[k]) || blank_line_spec(ls[k]) {
        (1 + table_span_len(ls, k + 1)) as nat
    } else {
        0
    }
}

/// The non-blank lines among `ls[a..b]`.
pub open spec fn retained_rows(ls: Seq<Seq<char>>, a: int, b: int) -> Seq<Seq<char>>
    decreases b - a,
{
    if a < 0 || a >= b || a >= ls.len() {
        Seq::empty()
    } else {
        (if blank_line_spec(ls[a]) {
            Seq::empty()
        } else {
            seq![ls[a]]
        }) + retained_rows(ls, a + 1, b)
    }
}

/// The colored lines from position `i` on: runs of two or more table rows
/// (blank lines in between dropped) become bordered boxes; other lines get
/// their per-line color.
pub open spec fn color_lines(ls: Seq<Seq<char>>, i: int) -> Seq<Seq<char>>
    decreases ls.len() - i,
{
    if i < 0 || i >= ls.len() {
        Seq::empty()
    } else if table_row_spec(ls[i]) {
        let span = table_span_len(ls, i + 1) as int;
        let j = if i + 1 + span > ls.len() {
            ls.len() as int
        } else {
            i + 1 + span
        };
        let rows = seq![ls[i]] + retained_rows(ls, i + 1, j);
        if rows.len() >= 2 {
            table_box_spec(rows) + color_lines(ls, j)
        } else {
            seq![line_colored(ls[i])] + color_lines(ls, i + 1)
        }
    } else {
        seq![line_colored(ls[i])] + color_lines(ls, i + 1)
    }
}

/// The whole layout pass: lines classified and colored, table runs boxed,
/// joined back with newlines.
pub open spec fn add_colors_spec(s: Seq<char>) -> Seq<char> {
    join_spec(color_lines(lines_spec(s), 0))
}

/// Tests whether a line is blank.
fn blank_line(line: &Vec<char>) -> (r: bool)
    ensures
        r == blank_line_spec(line@),
{
    let t = trim_chars(line);
    t.len() == 0
}

/// Applies the per-line color.
fn color_line(line: &Vec<char>) -> (r: Vec<char>)
    ensures
        r@ == line_colored(line@),
{
    let n: usize = line.len();
    if is_header_chars(line) {
        let mut out: Vec<char> = Vec::new();
        push_bold(&mut out);
        push_cyan(&mut out);
        let mut body = copy_range(line, 0, n);
        out.append(&mut body);
        push_reset(&mut out);
        proof {
            assert(out@ =~= esc_bold() + esc_cyan() + line@ + esc_reset());
        }
        return out;
    }
    // section title test
    let t = trim_chars(line);
    let tn: usize = t.len();
    let mut title: bool = tn > 0 && t[tn - 1] == ':' && tn < 50;
    if title && n >= 1 {
        let mut k: usize = 0;
        while k < n - 1
            invariant
                n >= 1,
                k <= n - 1,
                n == line@.len(),
                title == (forall|q: int|
                    0 <= q && q < k && q + 1 < n ==> !(#[trigger] line@[q] == ' ' && line@[q + 1]
                        == ' ')),
            decreases n - k,
        {
            if line[k] == ' ' && line[k + 1] == ' ' {
                title = false;
            }
            k = k + 1;
        }
        proof {
            assert(title == no_double_space(line@));
        }
    }
    if title {
        let mut out: Vec<char> = Vec::new();
        push_bold(&mut out);
        push_yellow(&mut out);
        let mut body = copy_range(line, 0, n);
        out.append(&mut body);
        push_reset(&mut out);
        proof {
            assert(out@ =~= esc_bold() + esc_yellow() + line@ + esc_reset());
        }
        out
    } else {
        copy_range(line, 0, n)
    }
}

/// Runs the layout pass over the lines of a character vector.
#[verifier::rlimit(60)]
pub fn add_colors_chars(v: &Vec<char>) -> (r: Vec<char>)
    ensures
        r@ == add_colors_spec(v@),
{
    let lsv = split_lines(v);
    let ghost t = views_of(lsv@);
    let n: usize = lsv.len();
    let mut out: Vec<Vec<char>> = Vec::new();
    let mut i: usize = 0;
    proof {
        assert(views_of(out@) =~= Seq::<Seq<char>>::empty());
        assert(views_of(out@) + color_lines(t, 0) =~= color_lines(t, 0));
    }
    while i < n
        invariant
            i <= n,
            n == t.len(),
            t == views_of(lsv@),
            color_lines(t, 0) == views_of(out@) + color_lines(t, i as int),
        decreases n - i,
    {
        proof {
            assert(t[i as int] == lsv@[i as int]@);
        }
        if is_table_row_chars(&lsv[i]) {
            // collect the run of table rows, dropping blank lines
            let mut rows: Vec<Vec<char>> = Vec::new();
            let first = copy_range(&lsv[i], 0, lsv[i].len());
            proof {
                assert(first@ =~= lsv@[i as int]@);
            }
            rows.push(first);
            let mut j: usize = i + 1;
            proof {
                assert(views_of(rows@) =~= seq![t[i as int]] + retained_rows(
                    t,
                    i as int + 1,
                    j as int,
                ));
            }
            while j < n
                invariant
                    i + 1 <= j <= n,
                    n == t.len(),
                    t == views_of(lsv@),
                    table_span_len(t, i as int + 1) == (j - i - 1) + table_span_len(t, j as int),
                    views_of(rows@) == seq![t[i as int]] + retained_rows(t, i as int + 1, j as int),
                    rows@.len() >= 1,
                ensures
                    i + 1 <= j <= n,
                    table_span_len(t, i as int + 1) == (j - i - 1) + table_span_len(t, j as int),
                    views_of(rows@) == seq![t[i as int]] + retained_rows(t, i as int + 1, j as int),
                    rows@.len() >= 1,
                    table_span_len(t, j as int) == 0,
                decreases n - j,
            {
                proof {
                    assert(t[j as int] == lsv@[j as int]@);
                }
                let tr = is_table_row_chars(&lsv[j]);
                let bl = blank_line(&lsv[j]);
                if !(tr || bl) {
                    proof {
                        assert(table_span_len(t, j as int) == 0);
                    }
                    break;
                }
                let ghost rows_pre = rows@;
                if !bl {
                    let row = copy_range(&lsv[j], 0, lsv[j].len());
                    proof {
                        assert(row@ =~= t[j as int]);
                    }
                    rows.push(row);
                    proof {
                        assert(rows@.len() == rows_pre.len() + 1);
                        assert(rows@[rows@.len() - 1]@ == t[j as int]);
                    }
                }
                j = j + 1;
                proof {
                    let pre = retained_rows(t, i as int + 1, j as int - 1);
                    let seg = retained_rows(t, j as int - 1, j as int);
                    lemma_retained_rows_split(t, i as int + 1, j as int - 1, j as int);
                    assert(retained_rows(t, i as int + 1, j as int) == pre + seg);
                    assert(retained_rows(t, j as int, j as int) =~= Seq::<Seq<char>>::empty());
                    assert(views_of(rows_pre) == seq![t[i as int]] + pre);
                    if blank_line_spec(t[j as int - 1]) {
                        assert(seg =~= Seq::<Seq<char>>::empty());
                        assert(rows@ == rows_pre);
                        assert(views_of(rows@) =~= seq![t[i as int]] + (pre + seg));
                    } else {
                        assert(seg =~= seq![t[j as int - 1]]);
                        assert forall|q: int|
                            0 <= q < rows@.len() implies views_of(rows@)[q] == (seq![t[i as int]]
                            + (pre + seg))[q] by {
                            assert(views_of(rows@)[q] == rows@[q]@);
                            assert(views_of(rows_pre).len() == rows_pre.len());
                            if q < rows@.len() - 1 {
                                assert(rows@[q] == rows_pre[q]);
                                assert(views_of(rows_pre)[q] == rows_pre[q]@);
                            } else {
                                assert(rows@[q]@ == t[j as int - 1]);
                                assert((seq![t[i as int]] + (pre + seg))[q] == seg[0]);
                            }
                        }
                        assert(views_of(rows@).len() == rows@.len());
                        assert(rows@.len() == rows_pre.len() + 1);
                        assert(views_of(rows_pre).len() == rows_pre.len());
                        assert(views_of(rows_pre).len() == 1 + pre.len());
                        assert(seg.len() == 1);
                        assert(views_of(rows@).len() == (seq![t[i as int]] + (pre + seg)).len());
                        assert(views_of(rows@) =~= seq![t[i as int]] + (pre + seg));
                    }
                    assert(views_of(rows@) =~= seq![t[i as int]] + retained_rows(
                        t,
                        i as int + 1,
                        j as int,
                    ));
                }
            }
            proof {
                assert(table_span_len(t, i as int + 1) == j - i - 1);
            }
            if rows.len() >= 2 {
                let boxed = format_table_lines(&rows);
                let bn: usize = boxed.len();
                let ghost outg = views_of(out@);
                let mut b: usize = 0;
                let mut boxed_mut = boxed;
                proof {
                    assert(views_of(out@) =~= outg + views_of(boxed_mut@).take(0));
                }
                // move the box lines into the output
                while b < bn
                    invariant
                        b <= bn,
                        bn == boxed_mut@.len(),
                        views_of(boxed_mut@) == table_box_spec(views_of(rows@)),
                        views_of(out@) == outg + views_of(boxed_mut@).take(b as int),
                    decreases bn - b,
                {
                    let linecopy = copy_range(&boxed_mut[b], 0, boxed_mut[b].len());
                    proof {
                        assert(linecopy@ =~= boxed_mut@[b as int]@);
                    }
                    let ghost outpre2 = out@;
                    out.push(linecopy);
                    b = b + 1;
                    proof {
                        assert(out@.drop_last() =~= outpre2);
                        assert(views_of(out@) =~= views_of(outpre2).push(
                            boxed_mut@[b as int - 1]@,
                        ));
                        assert(views_of(boxed_mut@)[b as int - 1] == boxed_mut@[b as int - 1]@);
                        assert(views_of(boxed_mut@).take(b as int) =~= views_of(
                            boxed_mut@,
                        ).take(b as int - 1).push(boxed_mut@[b as int - 1]@));
                        assert(views_of(out@) =~= (outg + views_of(boxed_mut@).take(
                            b as int - 1,
                        )).push(boxed_mut@[b as int - 1]@));
                        assert(views_of(out@) =~= outg + views_of(boxed_mut@).take(b as int));
                    }
                }
                proof {
                    assert(views_of(boxed_mut@).take(bn as int) =~= views_of(boxed_mut@));
                    assert(views_of(out@) =~= outg + table_box_spec(views_of(rows@)));
                    assert(color_lines(t, i as int) == table_box_spec(views_of(rows@))
                        + color_lines(t, j as int));
                    assert(views_of(out@) + color_lines(t, j as int) =~= outg + (table_box_spec(
                        views_of(rows@),
                    ) + color_lines(t, j as int)));
                }
                i = j;
            } else {
                let colored = color_line(&lsv[i]);
                out.push(colored);
                proof {
                    assert(views_of(out@) =~= views_of(out@.drop_last()).push(line_colored(
                        t[i as int],
                    )));
                    assert(views_of(out@) + color_lines(t, i as int + 1) =~= views_of(
                        out@.drop_last(),
                    ) + (seq![line_colored(t[i as int])] + color_lines(t, i as int + 1)));
                }
                i = i + 1;
            }
        } else {
            let colored = color_line(&lsv[i]);
            out.push(colored);
            proof {
                assert(views_of(out@) =~= views_of(out@.drop_last()).push(line_colored(
                    t[i as int],
                )));
                assert(views_of(out@) + color_lines(t, i as int + 1) =~= views_of(
                    out@.drop_last(),
                ) + (seq![line_colored(t[i as int])] + color_lines(t, i as int + 1)));
            }
            i = i + 1;
        }
    }
    proof {
        assert(color_lines(t, n as int) =~= Seq::<Seq<char>>::empty());
        assert(views_of(out@) + color_lines(t, n as int) =~= views_of(out@));
    }
    join_lines(&out)
}

/// Splitting a retained range at a midpoint splits its rows.
pub proof fn lemma_retained_rows_split(ls: Seq<Seq<char>>, a: int, m: int, b: int)
    requires
        0 <= a <= m <= b,
    ensures
        retained_rows(ls, a, b) == retained_rows(ls, a, m) + retained_rows(ls, m, b),
    decreases m - a,
{
    if a < m && a < ls.len() {
        lemma_retained_rows_split(ls, a + 1, m, b);
        assert(retained_rows(ls, a, b) =~= retained_rows(ls, a, m) + retained_rows(ls, m, b));
    } else if a >= m {
        assert(retained_rows(ls, a, m) =~= Seq::<Seq<char>>::empty());
        assert(retained_rows(ls, a, b) =~= retained_rows(ls, a, m) + retained_rows(ls, m, b));
    } else {
        // a >= ls.len(): both sides are empty ranges beyond the lines
        assert(retained_rows(ls, a, b) =~= Seq::<Seq<char>>::empty());
        assert(retained_rows(ls, a, m) =~= Seq::<Seq<char>>::empty());
        assert(retained_rows(ls, m, b) =~= Seq::<Seq<char>>::empty()) by {
            lemma_retained_rows_empty(ls, m, b);
        }
        assert(retained_rows(ls, a, b) =~= retained_rows(ls, a, m) + retained_rows(ls, m, b));
    }
}

/// A retained range starting past the end holds nothing.
pub proof fn lemma_retained_rows_empty(ls: Seq<Seq<char>>, a: int, b: int)
    requires
        a >= ls.len(),
    ensures
        retained_rows(ls, a, b) == Seq::<Seq<char>>::empty(),
{
}

} // verus!

verus! {

// ---------------------------------------------------------------------------
// Public string-level interface
// ---------------------------------------------------------------------------

/// Classifies a line as a table row (see `table_row_spec`).
pub fn is_table_row(line: &str) -> (r: bool)
    ensures
        r == table_row_spec(line@),
{
    let v = to_chars(line);
    is_table_row_chars(&v)
}

/// Classifies a line as a header (see `header_spec`).
pub fn is_header(line: &str) -> (r: bool)
    ensures
        r == header_spec(line@),
{
    let v = to_chars(line);
    is_header_chars(&v)
}

/// The visual width of a string, approximated as its character count.
pub fn visual_width(s: &str) -> (r: usize)
    ensures
        r == s@.len(),
{
    let v = to_chars(s);
    v.len()
}

/// Colors the labels of a table row (see `row_color_spec`).
pub fn format_table_row(line: &str) -> (r: String)
    ensures
        r@ == row_color_spec(line@),
{
    let v = to_chars(line);
    let out = format_table_row_chars(&v);
    string_of(&out)
}

/// Renders a group of table rows as a bordered, colorized box, the lines
/// joined with newlines (see `table_box_spec`).
pub fn format_table(lines: &Vec<String>) -> (r: String)
    ensures
        r@ == join_spec(table_box_spec(lines@.map_values(|l: String| l@))),
{
    let n: usize = lines.len();
    let mut rows: Vec<Vec<char>> = Vec::new();
    let mut i: usize = 0;
    while i < n
        invariant
            i <= n,
            n == lines@.len(),
            rows@.len() == i,
            forall|k: int| 0 <= k < i ==> #[trigger] rows@[k]@ == lines@[k]@,
        decreases n - i,
    {
        let row = to_chars(lines[i].as_str());
        rows.push(row);
        i = i + 1;
    }
    proof {
        assert forall|k: int| 0 <= k < n implies #[trigger] views_of(rows@)[k] == lines@.map_values(
            |l: String| l@,
        )[k] by {
            assert(views_of(rows@)[k] == rows@[k]@);
        }
        assert(views_of(rows@) =~= lines@.map_values(|l: String| l@));
    }
    let boxed = format_table_lines(&rows);
    let out = join_lines(&boxed);
    string_of(&out)
}

/// Runs the layout pass: classifies lines, colors headers and section
/// titles, and boxes runs of table rows (see `add_colors_spec`).
pub fn add_colors(text: &str) -> (r: String)
    ensures
        r@ == add_colors_spec(text@),
{
    let v = to_chars(text);
    let out = add_colors_chars(&v);
    string_of(&out)
}

} // verus!
