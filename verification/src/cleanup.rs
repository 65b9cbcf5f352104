//! Text cleanup passes: URL stripping, invisible-character removal, blank-line
//! collapsing, and the markdown artifact rewrites.

use vstd::prelude::*;
use crate::text::{is_space, space_char, trim_spec, trim_chars, lines_spec, views_of, split_lines,
    join_spec, join_lines, to_chars, string_of, copy_range};

verus! {

// ---------------------------------------------------------------------------
// Invisible characters
// ---------------------------------------------------------------------------

/// Zero-width and invisible characters removed by cleanup: combining grapheme
/// joiner, zero-width space, zero-width non-joiner, zero-width joiner, and the
/// byte-order mark.
pub open spec fn is_invisible(c: char) -> bool {
    c == '\u{34F}' || c == '\u{200B}' || c == '\u{200C}' || c == '\u{200D}' || c == '\u{FEFF}'
}

/// The text with every invisible character removed.
pub open spec fn remove_invisible_spec(s: Seq<char>) -> Seq<char>
    decreases s.len(),
{
    if s.len() == 0 {
        Seq::empty()
    } else if is_invisible(s[0]) {
        remove_invisible_spec(s.skip(1))
    } else {
        seq![s[0]] + remove_invisible_spec(s.skip(1))
    }
}

/// Removes the invisible characters.
pub fn remove_invisible(v: &Vec<char>) -> (r: Vec<char>)
    ensures
        r@ == remove_invisible_spec(v@),
{
    let n: usize = v.len();
    let mut r: Vec<char> = Vec::new();
    let mut i: usize = 0;
    proof {
        assert(v@.skip(0) =~= v@);
        assert(r@ + remove_invisible_spec(v@) =~= remove_invisible_spec(v@));
    }
    while i < n
        invariant
            i <= n,
            n == v@.len(),
            remove_invisible_spec(v@) == r@ + remove_invisible_spec(v@.skip(i as int)),
        decreases n - i,
    {
        proof {
            assert(v@.skip(i as int)[0] == v@[i as int]);
            assert(v@.skip(i as int).skip(1) =~= v@.skip(i as int + 1));
        }
        let c = v[i];
        let inv = c == '\u{34F}' || c == '\u{200B}' || c == '\u{200C}' || c == '\u{200D}' || c
            == '\u{FEFF}';
        if !inv {
            r.push(c);
            proof {
                assert(r@ + remove_invisible_spec(v@.skip(i as int + 1)) =~= r@.drop_last() + (
                seq![c] + remove_invisible_spec(v@.skip(i as int + 1))));
            }
        }
        i = i + 1;
    }
    proof {
        assert(v@.skip(n as int) =~= Seq::<char>::empty());
        assert(r@ + remove_invisible_spec(Seq::<char>::empty()) =~= r@);
    }
    r
}

// ---------------------------------------------------------------------------
// Blank-line collapsing
// ---------------------------------------------------------------------------

/// The text with every run of three or more newlines shortened to two,
/// scanning left to right; `run` counts the newlines already kept in the
/// current run (never above two).
pub open spec fn collapse_from(s: Seq<char>, run: int) -> Seq<char>
    decreases s.len(),
{
    if s.len() == 0 {
        Seq::empty()
    } else if s[0] == '\n' {
        if run >= 2 {
            collapse_from(s.skip(1), 2)
        } else {
            seq!['\n'] + collapse_from(s.skip(1), run + 1)
        }
    } else {
        seq![s[0]] + collapse_from(s.skip(1), 0)
    }
}

/// The text with runs of three or more newlines collapsed to exactly two.
pub open spec fn collapse_newlines_spec(s: Seq<char>) -> Seq<char> {
    collapse_from(s, 0)
}

/// Collapses runs of three or more newlines to exactly two.
pub fn collapse_newlines(v: &Vec<char>) -> (r: Vec<char>)
    ensures
        r@ == collapse_newlines_spec(v@),
{
    let n: usize = v.len();
    let mut r: Vec<char> = Vec::new();
    let mut run: usize = 0;
    let mut i: usize = 0;
    proof {
        assert(v@.skip(0) =~= v@);
        assert(r@ + collapse_from(v@, 0) =~= collapse_from(v@, 0));
    }
    while i < n
        invariant
            i <= n,
            n == v@.len(),
            run <= 2,
            collapse_newlines_spec(v@) == r@ + collapse_from(v@.skip(i as int), run as int),
        decreases n - i,
    {
        proof {
            assert(v@.skip(i as int)[0] == v@[i as int]);
            assert(v@.skip(i as int).skip(1) =~= v@.skip(i as int + 1));
        }
        let c = v[i];
        if c == '\n' {
            if run >= 2 {
                // dropped
            } else {
                r.push('\n');
                run = run + 1;
                proof {
                    assert(r@ + collapse_from(v@.skip(i as int + 1), run as int) =~= r@.drop_last()
                        + (seq!['\n'] + collapse_from(v@.skip(i as int + 1), run as int)));
                }
            }
        } else {
            r.push(c);
            run = 0;
            proof {
                assert(r@ + collapse_from(v@.skip(i as int + 1), 0) =~= r@.drop_last() + (seq![c]
                    + collapse_from(v@.skip(i as int + 1), 0)));
            }
        }
        i = i + 1;
    }
    proof {
        assert(v@.skip(n as int) =~= Seq::<char>::empty());
        assert(r@ + collapse_from(Seq::<char>::empty(), run as int) =~= r@);
    }
    r
}

// ---------------------------------------------------------------------------
// URL recognition
// ---------------------------------------------------------------------------

/// Length of the URL scheme at the start of `s`: 8 for `https://`,
/// 7 for `http://`, 0 otherwise.
pub open spec fn url_scheme_len(s: Seq<char>) -> int {
    if s.len() >= 8 && s[0] == 'h' && s[1] == 't' && s[2] == 't' && s[3] == 'p' && s[4] == 's'
        && s[5] == ':' && s[6] == '/' && s[7] == '/' {
        8
    } else if s.len() >= 7 && s[0] == 'h' && s[1] == 't' && s[2] == 't' && s[3] == 'p' && s[4]
        == ':' && s[5] == '/' && s[6] == '/' {
        7
    } else {
        0
    }
}

/// Length of the URL scheme found in `v` at position `i`.
pub fn scheme_len_at(v: &Vec<char>, i: usize) -> (r: usize)
    requires
        i <= v@.len(),
    ensures
        r == url_scheme_len(v@.skip(i as int)),
{
    let n: usize = v.len();
    proof {
        assert(forall|k: int| 0 <= k < n - i ==> v@.skip(i as int)[k] == v@[i + k]);
    }
    if n - i >= 8 && v[i] == 'h' && v[i + 1] == 't' && v[i + 2] == 't' && v[i + 3] == 'p' && v[i
        + 4] == 's' && v[i + 5] == ':' && v[i + 6] == '/' && v[i + 7] == '/' {
        8
    } else if n - i >= 7 && v[i] == 'h' && v[i + 1] == 't' && v[i + 2] == 't' && v[i + 3] == 'p'
        && v[i + 4] == ':' && v[i + 5] == '/' && v[i + 6] == '/' {
        7
    } else {
        0
    }
}

/// Whether `c` may appear in a bare URL. In markdown text (`md`), closing
/// parentheses and brackets end a URL as well.
pub open spec fn is_url_char(c: char, md: bool) -> bool {
    !is_space(c) && (!md || (c != ')' && c != ']'))
}

/// Executable mirror of `is_url_char`.
pub fn url_char(c: char, md: bool) -> (r: bool)
    ensures
        r == is_url_char(c, md),
{
    !space_char(c) && (!md || (c != ')' && c != ']'))
}

/// Length of the run of URL characters at the start of `s`.
pub open spec fn url_run_len(s: Seq<char>, md: bool) -> int
    decreases s.len(),
{
    if s.len() > 0 && is_url_char(s[0], md) {
        1 + url_run_len(s.skip(1), md)
    } else {
        0
    }
}

/// Length of the long-URL match at the start of `s`: a scheme followed by at
/// least 40 URL characters; 0 when there is no such match.
pub open spec fn long_url_len(s: Seq<char>, md: bool) -> int {
    let k = url_scheme_len(s);
    if k > 0 {
        let r = url_run_len(s.skip(k), md);
        if r >= 40 {
            k + r
        } else {
            0
        }
    } else {
        0
    }
}

/// The text with every long URL (scheme plus 40 or more URL characters)
/// removed, scanning left to right.
pub open spec fn strip_urls_spec(s: Seq<char>, md: bool) -> Seq<char>
    decreases s.len(),
{
    if s.len() == 0 {
        Seq::empty()
    } else {
        let m0 = long_url_len(s, md);
        let m = if m0 > s.len() {
            s.len() as int
        } else {
            m0
        };
        if m0 > 0 {
            strip_urls_spec(s.skip(m), md)
        } else {
            seq![s[0]] + strip_urls_spec(s.skip(1), md)
        }
    }
}

/// Counts the URL characters in `v` from position `i` on.
fn url_run_at(v: &Vec<char>, i: usize, md: bool) -> (r: usize)
    requires
        i <= v@.len(),
    ensures
        r == url_run_len(v@.skip(i as int), md),
        i + r <= v@.len(),
{
    let n: usize = v.len();
    let mut j: usize = i;
    while j < n && url_char(v[j], md)
        invariant
            i <= j <= n,
            n == v@.len(),
            url_run_len(v@.skip(i as int), md) == (j - i) + url_run_len(v@.skip(j as int), md),
        decreases n - j,
    {
        proof {
            assert(v@.skip(j as int)[0] == v@[j as int]);
            assert(v@.skip(j as int).skip(1) =~= v@.skip(j as int + 1));
        }
        j = j + 1;
    }
    proof {
        if j < n {
            assert(v@.skip(j as int)[0] == v@[j as int]);
        }
        assert(url_run_len(v@.skip(j as int), md) == 0);
    }
    j - i
}

/// Removes every long URL: an `http://` or `https://` scheme followed by 40
/// or more URL characters, replaced by nothing.
pub fn strip_urls_chars(v: &Vec<char>, md: bool) -> (r: Vec<char>)
    ensures
        r@ == strip_urls_spec(v@, md),
{
    let n: usize = v.len();
    let mut r: Vec<char> = Vec::new();
    let mut i: usize = 0;
    proof {
        assert(v@.skip(0) =~= v@);
        assert(r@ + strip_urls_spec(v@, md) =~= strip_urls_spec(v@, md));
    }
    while i < n
        invariant
            i <= n,
            n == v@.len(),
            strip_urls_spec(v@, md) == r@ + strip_urls_spec(v@.skip(i as int), md),
        decreases n - i,
    {
        proof {
            assert(v@.skip(i as int)[0] == v@[i as int]);
            assert(v@.skip(i as int).skip(1) =~= v@.skip(i as int + 1));
        }
        let k = scheme_len_at(v, i);
        let mut matched: usize = 0;
        if k > 0 {
            proof {
                assert(v@.skip(i as int).skip(k as int) =~= v@.skip(i as int + k as int));
            }
            let run = url_run_at(v, i + k, md);
            if run >= 40 {
                matched = k + run;
            }
        }
        if matched > 0 {
            proof {
                assert(v@.skip(i as int).skip(matched as int) =~= v@.skip(
                    i as int + matched as int,
                ));
            }
            i = i + matched;
        } else {
            r.push(v[i]);
            proof {
                assert(r@ + strip_urls_spec(v@.skip(i as int + 1), md) =~= r@.drop_last() + (seq![
                    v@[i as int],
                ] + strip_urls_spec(v@.skip(i as int + 1), md)));
            }
            i = i + 1;
        }
    }
    proof {
        assert(v@.skip(n as int) =~= Seq::<char>::empty());
        assert(r@ + strip_urls_spec(Seq::<char>::empty(), md) =~= r@);
    }
    r
}

// ---------------------------------------------------------------------------
// Character search
// ---------------------------------------------------------------------------

/// Index of the first occurrence of `c` in `s`, or -1 when absent.
pub open spec fn find_char_spec(s: Seq<char>, c: char) -> int
    decreases s.len(),
{
    if s.len() == 0 {
        -1
    } else if s[0] == c {
        0
    } else {
        let r = find_char_spec(s.skip(1), c);
        if r < 0 {
            -1
        } else {
            1 + r
        }
    }
}

/// Shifts a find result by `d` positions, keeping -1 for "absent".
pub open spec fn shift_find(d: int, f: int) -> int {
    if f < 0 {
        -1
    } else {
        d + f
    }
}

/// Finds the first occurrence of `c` in `v` at or after `start`.
pub fn find_from(v: &Vec<char>, start: usize, c: char) -> (r: Option<usize>)
    requires
        start <= v@.len(),
    ensures
        match r {
            Some(p) => start <= p < v@.len() && find_char_spec(v@.skip(start as int), c) == p
                - start,
            None => find_char_spec(v@.skip(start as int), c) == -1,
        },
{
    let n: usize = v.len();
    let mut j: usize = start;
    while j < n && v[j] != c
        invariant
            start <= j <= n,
            n == v@.len(),
            find_char_spec(v@.skip(start as int), c) == shift_find(
                j - start,
                find_char_spec(v@.skip(j as int), c),
            ),
        decreases n - j,
    {
        proof {
            assert(v@.skip(j as int)[0] == v@[j as int]);
            assert(v@.skip(j as int).skip(1) =~= v@.skip(j as int + 1));
        }
        j = j + 1;
    }
    if j < n {
        proof {
            assert(v@.skip(j as int)[0] == v@[j as int]);
        }
        Some(j)
    } else {
        proof {
            assert(v@.skip(j as int) =~= Seq::<char>::empty());
        }
        None
    }
}

} // verus!

verus! {

// ---------------------------------------------------------------------------
// Markdown link rewrites
// ---------------------------------------------------------------------------

/// Length of the `mailto:` prefix at the start of `s`: 7 or 0.
pub open spec fn mailto_prefix_len(s: Seq<char>) -> int {
    if s.len() >= 7 && s[0] == 'm' && s[1] == 'a' && s[2] == 'i' && s[3] == 'l' && s[4] == 't'
        && s[5] == 'o' && s[6] == ':' {
        7
    } else {
        0
    }
}

/// Length of the `mailto:` prefix found in `v` at position `i`.
pub fn mailto_len_at(v: &Vec<char>, i: usize) -> (r: usize)
    requires
        i <= v@.len(),
    ensures
        r == mailto_prefix_len(v@.skip(i as int)),
{
    let n: usize = v.len();
    proof {
        assert(forall|k: int| 0 <= k < n - i ==> v@.skip(i as int)[k] == v@[i + k]);
    }
    if n - i >= 7 && v[i] == 'm' && v[i + 1] == 'a' && v[i + 2] == 'i' && v[i + 3] == 'l' && v[i
        + 4] == 't' && v[i + 5] == 'o' && v[i + 6] == ':' {
        7
    } else {
        0
    }
}

/// Length of a markdown link `[label](target)` at the start of `s`, where the
/// target begins with an URL scheme (or `mailto:` when `mailto` is set); 0
/// when there is no such link. The label is the text up to the first closing
/// bracket and must not be empty; the target runs to the first closing
/// parenthesis and must have at least one character after the scheme.
pub open spec fn link_match_len(s: Seq<char>, mailto: bool) -> int {
    if s.len() == 0 || s[0] != '[' {
        0
    } else {
        let jr = find_char_spec(s.skip(1), ']');
        if jr < 1 {
            0
        } else {
            let j = 1 + jr;
            if j + 1 >= s.len() || s[j + 1] != '(' {
                0
            } else {
                let k = if mailto {
                    mailto_prefix_len(s.skip(j + 2))
                } else {
                    url_scheme_len(s.skip(j + 2))
                };
                if k == 0 {
                    0
                } else {
                    let pr = find_char_spec(s.skip(j + 2 + k), ')');
                    if pr < 1 {
                        0
                    } else {
                        j + 2 + k + pr + 1
                    }
                }
            }
        }
    }
}

/// The label of the link at the start of `s`: the text between the brackets.
pub open spec fn link_label(s: Seq<char>) -> Seq<char> {
    s.subrange(1, 1 + find_char_spec(s.skip(1), ']'))
}

/// The text with every matching markdown link replaced by its label alone,
/// scanning left to right.
pub open spec fn rewrite_links_spec(s: Seq<char>, mailto: bool) -> Seq<char>
    decreases s.len(),
{
    if s.len() == 0 {
        Seq::empty()
    } else {
        let m0 = link_match_len(s, mailto);
        let m = if m0 > s.len() {
            s.len() as int
        } else {
            m0
        };
        if m0 > 0 {
            link_label(s) + rewrite_links_spec(s.skip(m), mailto)
        } else {
            seq![s[0]] + rewrite_links_spec(s.skip(1), mailto)
        }
    }
}

/// Replaces each markdown link whose target starts with an URL scheme (or
/// `mailto:`) by its label.
#[verifier::rlimit(60)]
pub fn rewrite_links(v: &Vec<char>, mailto: bool) -> (r: Vec<char>)
    ensures
        r@ == rewrite_links_spec(v@, mailto),
{
    let n: usize = v.len();
    let mut r: Vec<char> = Vec::new();
    let mut i: usize = 0;
    proof {
        assert(v@.skip(0) =~= v@);
        assert(r@ + rewrite_links_spec(v@, mailto) =~= rewrite_links_spec(v@, mailto));
    }
    while i < n
        invariant
            i <= n,
            n == v@.len(),
            rewrite_links_spec(v@, mailto) == r@ + rewrite_links_spec(v@.skip(i as int), mailto),
        decreases n - i,
    {
        let ghost t = v@.skip(i as int);
        proof {
            assert(t[0] == v@[i as int]);
            assert(t.skip(1) =~= v@.skip(i as int + 1));
        }
        let mut m: usize = 0;
        let mut label_a: usize = 0;
        let mut label_b: usize = 0;
        if v[i] == '[' {
            if let Some(jpos) = find_from(v, i + 1, ']') {
                let jr: usize = jpos - (i + 1);
                proof {
                    assert(find_char_spec(t.skip(1), ']') == jr);
                }
                if jr >= 1 && jpos + 1 < n && v[jpos + 1] == '(' {
                    proof {
                        assert(t[1 + jr + 1] == v@[jpos + 1 as int]);
                        assert(t.skip(1 + jr as int + 2) =~= v@.skip(jpos + 2 as int));
                    }
                    let k: usize = if mailto {
                        mailto_len_at(v, jpos + 2)
                    } else {
                        scheme_len_at(v, jpos + 2)
                    };
                    if k > 0 {
                        proof {
                            assert(t.skip(1 + jr as int + 2 + k as int) =~= v@.skip(
                                jpos + 2 + k as int,
                            ));
                        }
                        if let Some(ppos) = find_from(v, jpos + 2 + k, ')') {
                            let pr: usize = ppos - (jpos + 2 + k);
                            if pr >= 1 {
                                m = (ppos + 1) - i;
                                label_a = i + 1;
                                label_b = jpos;
                                proof {
                                    assert(link_match_len(t, mailto) == m);
                                    assert(link_label(t) =~= v@.subrange(
                                        label_a as int,
                                        label_b as int,
                                    ));
                                }
                            }
                        }
                    }
                }
            }
        }
        if m > 0 {
            let mut label = copy_range(v, label_a, label_b);
            let ghost rold = r@;
            r.append(&mut label);
            proof {
                assert(t.skip(m as int) =~= v@.skip(i as int + m as int));
                assert(rewrite_links_spec(t, mailto) == link_label(t) + rewrite_links_spec(
                    t.skip(m as int),
                    mailto,
                ));
                assert(r@ + rewrite_links_spec(v@.skip(i as int + m as int), mailto) =~= rold + (
                link_label(t) + rewrite_links_spec(t.skip(m as int), mailto)));
            }
            i = i + m;
        } else {
            proof {
                assert(link_match_len(t, mailto) == 0);
            }
            r.push(v[i]);
            proof {
                assert(r@ + rewrite_links_spec(v@.skip(i as int + 1), mailto) =~= r@.drop_last()
                    + (seq![t[0]] + rewrite_links_spec(t.skip(1), mailto)));
            }
            i = i + 1;
        }
    }
    proof {
        assert(v@.skip(n as int) =~= Seq::<char>::empty());
        assert(r@ + rewrite_links_spec(Seq::<char>::empty(), mailto) =~= r@);
    }
    r
}

/// Length of an angle-bracket URL `<scheme…>` at the start of `s`, 0 when
/// there is no such link: an opening angle bracket, an URL scheme, at least
/// one further character, and the first closing angle bracket.
pub open spec fn angle_match_len(s: Seq<char>) -> int {
    if s.len() == 0 || s[0] != '<' {
        0
    } else {
        let k = url_scheme_len(s.skip(1));
        if k == 0 {
            0
        } else {
            let pr = find_char_spec(s.skip(1 + k), '>');
            if pr < 1 {
                0
            } else {
                1 + k + pr + 1
            }
        }
    }
}

/// The text with every angle-bracket URL removed, scanning left to right.
pub open spec fn remove_angle_spec(s: Seq<char>) -> Seq<char>
    decreases s.len(),
{
    if s.len() == 0 {
        Seq::empty()
    } else {
        let m0 = angle_match_len(s);
        let m = if m0 > s.len() {
            s.len() as int
        } else {
            m0
        };
        if m0 > 0 {
            remove_angle_spec(s.skip(m))
        } else {
            seq![s[0]] + remove_angle_spec(s.skip(1))
        }
    }
}

/// Removes each `<http…>` or `<https…>` angle-bracket link.
pub fn remove_angle_urls(v: &Vec<char>) -> (r: Vec<char>)
    ensures
        r@ == remove_angle_spec(v@),
{
    let n: usize = v.len();
    let mut r: Vec<char> = Vec::new();
    let mut i: usize = 0;
    proof {
        assert(v@.skip(0) =~= v@);
        assert(r@ + remove_angle_spec(v@) =~= remove_angle_spec(v@));
    }
    while i < n
        invariant
            i <= n,
            n == v@.len(),
            remove_angle_spec(v@) == r@ + remove_angle_spec(v@.skip(i as int)),
        decreases n - i,
    {
        let ghost t = v@.skip(i as int);
        proof {
            assert(t[0] == v@[i as int]);
            assert(t.skip(1) =~= v@.skip(i as int + 1));
        }
        let mut m: usize = 0;
        if v[i] == '<' {
            let k = scheme_len_at(v, i + 1);
            if k > 0 {
                proof {
                    assert(t.skip(1 + k as int) =~= v@.skip(i + 1 + k as int));
                }
                if let Some(ppos) = find_from(v, i + 1 + k, '>') {
                    let pr: usize = ppos - (i + 1 + k);
                    if pr >= 1 {
                        m = (ppos + 1) - i;
                        proof {
                            assert(angle_match_len(t) == m);
                        }
                    }
                }
            }
        }
        if m > 0 {
            proof {
                assert(t.skip(m as int) =~= v@.skip(i as int + m as int));
            }
            i = i + m;
        } else {
            proof {
                assert(angle_match_len(t) == 0);
            }
            r.push(v[i]);
            proof {
                assert(r@ + remove_angle_spec(v@.skip(i as int + 1)) =~= r@.drop_last() + (seq![
                    t[0],
                ] + remove_angle_spec(t.skip(1))));
            }
            i = i + 1;
        }
    }
    proof {
        assert(v@.skip(n as int) =~= Seq::<char>::empty());
        assert(r@ + remove_angle_spec(Seq::<char>::empty()) =~= r@);
    }
    r
}

} // verus!

verus! {

// ---------------------------------------------------------------------------
// Whitespace runs
// ---------------------------------------------------------------------------

/// Length of the run of whitespace at the start of `s`.
pub open spec fn space_run(s: Seq<char>) -> nat
    decreases s.len(),
{
    if s.len() > 0 && is_space(s[0]) {
        (1 + space_run(s.skip(1))) as nat
    } else {
        0
    }
}

/// Counts the whitespace characters in `v` from position `i` on.
pub fn space_run_at(v: &Vec<char>, i: usize) -> (r: usize)
    requires
        i <= v@.len(),
    ensures
        r == space_run(v@.skip(i as int)),
        i + r <= v@.len(),
{
    let n: usize = v.len();
    let mut j: usize = i;
    while j < n && space_char(v[j])
        invariant
            i <= j <= n,
            n == v@.len(),
            space_run(v@.skip(i as int)) == (j - i) + space_run(v@.skip(j as int)),
        decreases n - j,
    {
        proof {
            assert(v@.skip(j as int)[0] == v@[j as int]);
            assert(v@.skip(j as int).skip(1) =~= v@.skip(j as int + 1));
        }
        j = j + 1;
    }
    proof {
        if j < n {
            assert(v@.skip(j as int)[0] == v@[j as int]);
        }
        assert(space_run(v@.skip(j as int)) == 0);
    }
    j - i
}

// ---------------------------------------------------------------------------
// Single-cell table rows
// ---------------------------------------------------------------------------

/// No vertical bar anywhere in `s`.
pub open spec fn no_pipe(s: Seq<char>) -> bool {
    forall|k: int| 0 <= k < s.len() ==> s[k] != '|'
}

/// Every character is a dash or a plain space.
pub open spec fn all_dash_space(s: Seq<char>) -> bool {
    forall|k: int| 0 <= k < s.len() ==> s[k] == '-' || s[k] == ' '
}

/// Start of the single cell in a line: after the optional leading dash and
/// whitespace (`dash` variant), or at the very start; -1 when the `dash`
/// variant finds no leading dash.
pub open spec fn cell_start(s: Seq<char>, dash: bool) -> int {
    if dash {
        if s.len() > 0 && s[0] == '-' {
            (1 + space_run(s.skip(1))) as int
        } else {
            -1
        }
    } else {
        0
    }
}

/// Whether the whole line is a single-cell table row: the optional list
/// prefix, one vertical bar, a non-empty stretch without bars, and a closing
/// vertical bar at the very end.
pub open spec fn single_cell_match(s: Seq<char>, dash: bool) -> bool {
    let w = cell_start(s, dash);
    &&& w >= 0
    &&& w < s.len()
    &&& s[w] == '|'
    &&& s.len() >= w + 3
    &&& s[s.len() - 1] == '|'
    &&& no_pipe(s.subrange(w + 1, s.len() - 1))
}

/// The rewritten single-cell line: the cell text emphasized after the list
/// prefix, or nothing at all when the cell holds only dashes and spaces.
pub open spec fn single_cell_result(s: Seq<char>, dash: bool) -> Seq<char> {
    let w = cell_start(s, dash);
    let t = trim_spec(s.subrange(w + 1, s.len() - 1));
    if all_dash_space(t) {
        Seq::empty()
    } else {
        s.subrange(0, w) + seq!['*', '*'] + t + seq!['*', '*']
    }
}

/// A line after the single-cell rewrite: unchanged unless it matches.
pub open spec fn single_cell_line(s: Seq<char>, dash: bool) -> Seq<char> {
    if single_cell_match(s, dash) {
        single_cell_result(s, dash)
    } else {
        s
    }
}

/// Rewrites a single-cell table row line into emphasized text.
pub fn rewrite_single_cell(line: &Vec<char>, dash: bool) -> (r: Vec<char>)
    ensures
        r@ == single_cell_line(line@, dash),
{
    let n: usize = line.len();
    let mut w: usize = 0;
    let mut ok: bool = true;
    if dash {
        if n > 0 && line[0] == '|' {
            ok = false;
        }
        if n > 0 && line[0] == '-' {
            w = 1 + space_run_at(line, 1);
        } else {
            ok = false;
        }
    }
    proof {
        assert(ok ==> w == cell_start(line@, dash));
        assert(!ok ==> cell_start(line@, dash) == -1 || line@.len() == 0);
    }
    if !(ok && w < n && line[w] == '|' && n - w >= 3 && line[n - 1] == '|') {
        proof {
            assert(!single_cell_match(line@, dash));
        }
        return copy_range(line, 0, n);
    }
    // scan the interior for a stray bar
    let mut k: usize = w + 1;
    let mut clean: bool = true;
    while k < n - 1
        invariant
            w + 1 <= k <= n - 1,
            n == line@.len(),
            clean == (forall|q: int| w + 1 <= q < k ==> line@[q] != '|'),
        decreases n - k,
    {
        if line[k] == '|' {
            clean = false;
        }
        k = k + 1;
    }
    proof {
        let interior = line@.subrange(w + 1 as int, n as int - 1);
        if clean {
            assert forall|q: int| 0 <= q < interior.len() implies interior[q] != '|' by {
                assert(interior[q] == line@[w + 1 + q]);
            }
            assert(no_pipe(interior));
        } else {
            assert(exists|q: int| w + 1 <= q < n - 1 && line@[q] == '|');
            let q = choose|q: int| w + 1 <= q < n - 1 && line@[q] == '|';
            assert(interior[q - (w + 1)] == line@[q]);
            assert(!no_pipe(interior));
        }
    }
    if !clean {
        proof {
            assert(!single_cell_match(line@, dash));
        }
        return copy_range(line, 0, n);
    }
    proof {
        assert(single_cell_match(line@, dash));
    }
    let interior = copy_range(line, w + 1, n - 1);
    let t = trim_chars(&interior);
    let m: usize = t.len();
    let mut j: usize = 0;
    let mut plainfill: bool = true;
    while j < m
        invariant
            j <= m,
            m == t@.len(),
            plainfill == (forall|q: int| 0 <= q < j ==> t@[q] == '-' || t@[q] == ' '),
        decreases m - j,
    {
        if !(t[j] == '-' || t[j] == ' ') {
            plainfill = false;
        }
        j = j + 1;
    }
    proof {
        assert(plainfill == all_dash_space(t@));
    }
    if plainfill {
        Vec::new()
    } else {
        let mut out = copy_range(line, 0, w);
        out.push('*');
        out.push('*');
        let mut tt = t;
        out.append(&mut tt);
        out.push('*');
        out.push('*');
        proof {
            assert(out@ =~= line@.subrange(0, w as int) + seq!['*', '*'] + trim_spec(
                line@.subrange(w + 1 as int, n as int - 1),
            ) + seq!['*', '*']);
        }
        out
    }
}

// ---------------------------------------------------------------------------
// Empty table cells and empty table lines
// ---------------------------------------------------------------------------

/// The line with each empty adjacent pair of table cells collapsed: every
/// `|`, whitespace, `|` found scanning left to right becomes a single `|`.
pub open spec fn cell_collapse_spec(s: Seq<char>) -> Seq<char>
    decreases s.len(),
{
    if s.len() == 0 {
        Seq::empty()
    } else if s[0] == '|' {
        let w = space_run(s.skip(1)) as int;
        if 1 + w < s.len() && s[1 + w] == '|' {
            seq!['|'] + cell_collapse_spec(s.skip(1 + w + 1))
        } else {
            seq!['|'] + cell_collapse_spec(s.skip(1))
        }
    } else {
        seq![s[0]] + cell_collapse_spec(s.skip(1))
    }
}

/// Collapses empty adjacent table cells in a line.
pub fn collapse_cells(line: &Vec<char>) -> (r: Vec<char>)
    ensures
        r@ == cell_collapse_spec(line@),
{
    let n: usize = line.len();
    let mut r: Vec<char> = Vec::new();
    let mut i: usize = 0;
    proof {
        assert(line@.skip(0) =~= line@);
        assert(r@ + cell_collapse_spec(line@) =~= cell_collapse_spec(line@));
    }
    while i < n
        invariant
            i <= n,
            n == line@.len(),
            cell_collapse_spec(line@) == r@ + cell_collapse_spec(line@.skip(i as int)),
        decreases n - i,
    {
        let ghost t = line@.skip(i as int);
        proof {
            assert(t[0] == line@[i as int]);
            assert(t.skip(1) =~= line@.skip(i as int + 1));
        }
        let c = line[i];
        if c == '|' {
            proof {
                assert(t.skip(1) =~= line@.skip(i as int + 1));
            }
            let w = space_run_at(line, i + 1);
            proof {
                assert(space_run(t.skip(1)) == w);
                assert(1 + w < t.len() ==> t[1 + w] == line@[i + 1 + w]);
            }
            if i + 1 + w < n && line[i + 1 + w] == '|' {
                r.push('|');
                proof {
                    assert(t.skip(1 + w as int + 1) =~= line@.skip(i as int + w as int + 2));
                    assert(r@ + cell_collapse_spec(line@.skip(i as int + w as int + 2)) =~= r@
                        .drop_last() + (seq!['|'] + cell_collapse_spec(
                        t.skip(1 + w as int + 1),
                    )));
                }
                i = i + w + 2;
            } else {
                r.push('|');
                proof {
                    assert(r@ + cell_collapse_spec(line@.skip(i as int + 1)) =~= r@.drop_last()
                        + (seq!['|'] + cell_collapse_spec(t.skip(1))));
                }
                i = i + 1;
            }
        } else {
            r.push(c);
            proof {
                assert(r@ + cell_collapse_spec(line@.skip(i as int + 1)) =~= r@.drop_last() + (
                seq![c] + cell_collapse_spec(t.skip(1))));
            }
            i = i + 1;
        }
    }
    proof {
        assert(line@.skip(n as int) =~= Seq::<char>::empty());
        assert(r@ + cell_collapse_spec(Seq::<char>::empty()) =~= r@);
    }
    r
}

/// Whether the line is an empty table remnant: an optional dash, whitespace,
/// one bar, whitespace, an optional second bar, and whitespace to the end.
pub open spec fn empty_table_line_spec(s: Seq<char>) -> bool {
    let i0: int = if s.len() > 0 && s[0] == '-' {
        1
    } else {
        0
    };
    let a = i0 + space_run(s.skip(i0));
    &&& a < s.len()
    &&& s[a] == '|'
    &&& {
        let b = a + 1 + space_run(s.skip(a + 1));
        b == s.len() || (s[b] == '|' && b + 1 + space_run(s.skip(b + 1)) == s.len())
    }
}

/// Tests whether the line is an empty table remnant.
pub fn empty_table_line(line: &Vec<char>) -> (r: bool)
    ensures
        r == empty_table_line_spec(line@),
{
    let n: usize = line.len();
    let i0: usize = if n > 0 && line[0] == '-' {
        1
    } else {
        0
    };
    let a: usize = i0 + space_run_at(line, i0);
    if !(a < n && line[a] == '|') {
        return false;
    }
    let b: usize = a + 1 + space_run_at(line, a + 1);
    if b == n {
        return true;
    }
    if line[b] == '|' {
        let e: usize = b + 1 + space_run_at(line, b + 1);
        e == n
    } else {
        false
    }
}

} // verus!

verus! {

// ---------------------------------------------------------------------------
// Redundant table separators
// ---------------------------------------------------------------------------

/// Length of the run of dashes and colons at the start of `s`.
pub open spec fn dashcolon_run(s: Seq<char>) -> nat
    decreases s.len(),
{
    if s.len() > 0 && (s[0] == '-' || s[0] == ':') {
        (1 + dashcolon_run(s.skip(1))) as nat
    } else {
        0
    }
}

/// Counts the dash and colon characters in `v` from position `i` on.
fn dashcolon_run_at(v: &Vec<char>, i: usize) -> (r: usize)
    requires
        i <= v@.len(),
    ensures
        r == dashcolon_run(v@.skip(i as int)),
        i + r <= v@.len(),
{
    let n: usize = v.len();
    let mut j: usize = i;
    while j < n && (v[j] == '-' || v[j] == ':')
        invariant
            i <= j <= n,
            n == v@.len(),
            dashcolon_run(v@.skip(i as int)) == (j - i) + dashcolon_run(v@.skip(j as int)),
        decreases n - j,
    {
        proof {
            assert(v@.skip(j as int)[0] == v@[j as int]);
            assert(v@.skip(j as int).skip(1) =~= v@.skip(j as int + 1));
        }
        j = j + 1;
    }
    proof {
        if j < n {
            assert(v@.skip(j as int)[0] == v@[j as int]);
        }
        assert(dashcolon_run(v@.skip(j as int)) == 0);
    }
    j - i
}

/// Number of occurrences of `c` in `s`.
pub open spec fn count_char_spec(s: Seq<char>, c: char) -> int
    decreases s.len(),
{
    if s.len() == 0 {
        0
    } else {
        (if s[0] == c {
            1int
        } else {
            0int
        }) + count_char_spec(s.skip(1), c)
    }
}

/// Counts the occurrences of `c` in `v`.
pub fn count_char(v: &Vec<char>, c: char) -> (r: usize)
    ensures
        r == count_char_spec(v@, c),
{
    let n: usize = v.len();
    let mut r: usize = 0;
    let mut i: usize = 0;
    proof {
        assert(v@.skip(0) =~= v@);
        assert(count_char_spec(v@, c) <= v@.len()) by {
            lemma_count_char_bound(v@, c);
        }
    }
    while i < n
        invariant
            i <= n,
            n == v@.len(),
            r <= i,
            count_char_spec(v@, c) == r + count_char_spec(v@.skip(i as int), c),
        decreases n - i,
    {
        proof {
            assert(v@.skip(i as int)[0] == v@[i as int]);
            assert(v@.skip(i as int).skip(1) =~= v@.skip(i as int + 1));
        }
        if v[i] == c {
            r = r + 1;
        }
        i = i + 1;
    }
    proof {
        assert(v@.skip(n as int) =~= Seq::<char>::empty());
    }
    r
}

/// The count of a character never exceeds the length.
pub proof fn lemma_count_char_bound(s: Seq<char>, c: char)
    ensures
        0 <= count_char_spec(s, c) <= s.len(),
    decreases s.len(),
{
    if s.len() > 0 {
        lemma_count_char_bound(s.skip(1), c);
    }
}

/// Whether a line starts like a markdown table separator: a bar, whitespace,
/// at least one dash or colon, whitespace, and another bar.
pub open spec fn sep_prefix_spec(s: Seq<char>) -> bool {
    &&& s.len() > 0
    &&& s[0] == '|'
    &&& {
        let a = 1 + space_run(s.skip(1));
        let d = dashcolon_run(s.skip(a as int));
        &&& d >= 1
        &&& {
            let b = a + d + space_run(s.skip((a + d) as int));
            b < s.len() && s[b as int] == '|'
        }
    }
}

/// A markdown table separator row: the separator shape with more than two
/// dashes in the whole line.
pub open spec fn is_sep_line_spec(s: Seq<char>) -> bool {
    sep_prefix_spec(s) && count_char_spec(s, '-') > 2
}

/// A line that both starts and ends with a vertical bar.
pub open spec fn table_row_line_spec(s: Seq<char>) -> bool {
    s.len() > 0 && s[0] == '|' && s[s.len() - 1] == '|'
}

/// Tests whether the line is a markdown table separator row.
pub fn is_sep_line(line: &Vec<char>) -> (r: bool)
    ensures
        r == is_sep_line_spec(line@),
{
    let n: usize = line.len();
    if n == 0 || line[0] != '|' {
        return false;
    }
    let a: usize = 1 + space_run_at(line, 1);
    let d: usize = dashcolon_run_at(line, a);
    if d < 1 {
        return false;
    }
    let b: usize = a + d + space_run_at(line, a + d);
    if !(b < n && line[b] == '|') {
        return false;
    }
    let dashes = count_char(line, '-');
    dashes > 2
}

/// The lines with redundant separator rows dropped: inside a run of table
/// rows, only the first separator row is kept.
pub open spec fn sep_dedup_spec(ls: Seq<Seq<char>>, in_table: bool, had: bool) -> Seq<Seq<char>>
    decreases ls.len(),
{
    if ls.len() == 0 {
        Seq::empty()
    } else {
        let l = ls[0];
        let is_tr = table_row_line_spec(l);
        let is_sep = is_sep_line_spec(l);
        if is_tr {
            if is_sep && in_table && had {
                sep_dedup_spec(ls.skip(1), in_table, had)
            } else {
                seq![l] + sep_dedup_spec(ls.skip(1), true, had || is_sep)
            }
        } else {
            seq![l] + sep_dedup_spec(ls.skip(1), false, false)
        }
    }
}

/// Drops each separator row that repeats an earlier one in the same run of
/// table rows.
pub fn dedup_separators(ls: Vec<Vec<char>>) -> (r: Vec<Vec<char>>)
    ensures
        views_of(r@) == sep_dedup_spec(views_of(ls@), false, false),
{
    let n: usize = ls.len();
    let mut r: Vec<Vec<char>> = Vec::new();
    let mut in_table: bool = false;
    let mut had: bool = false;
    let mut i: usize = 0;
    proof {
        assert(views_of(ls@).skip(0) =~= views_of(ls@));
        assert(views_of(r@) =~= Seq::<Seq<char>>::empty());
        assert(views_of(r@) + sep_dedup_spec(views_of(ls@), false, false) =~= sep_dedup_spec(
            views_of(ls@),
            false,
            false,
        ));
    }
    while i < n
        invariant
            i <= n,
            n == ls@.len(),
            sep_dedup_spec(views_of(ls@), false, false) == views_of(r@) + sep_dedup_spec(
                views_of(ls@).skip(i as int),
                in_table,
                had,
            ),
        decreases n - i,
    {
        let ghost t = views_of(ls@).skip(i as int);
        proof {
            assert(t[0] == ls@[i as int]@);
            assert(t.skip(1) =~= views_of(ls@).skip(i as int + 1));
        }
        let line = &ls[i];
        let m: usize = line.len();
        let is_tr = m > 0 && line[0] == '|' && line[m - 1] == '|';
        let is_sep = is_sep_line(line);
        if is_tr && is_sep && in_table && had {
            // dropped
        } else {
            let kept = copy_range(line, 0, m);
            proof {
                assert(kept@ =~= line@);
            }
            r.push(kept);
            proof {
                assert(views_of(r@) =~= views_of(r@.drop_last()).push(line@));
            }
            if is_tr {
                in_table = true;
                had = had || is_sep;
            } else {
                in_table = false;
                had = false;
            }
            proof {
                assert(views_of(r@) + sep_dedup_spec(t.skip(1), in_table, had) =~= views_of(
                    r@.drop_last(),
                ) + (seq![line@] + sep_dedup_spec(t.skip(1), in_table, had)));
            }
        }
        i = i + 1;
    }
    proof {
        assert(views_of(ls@).skip(n as int) =~= Seq::<Seq<char>>::empty());
        assert(views_of(r@) + sep_dedup_spec(Seq::<Seq<char>>::empty(), in_table, had) =~= views_of(
            r@,
        ));
    }
    r
}

// ---------------------------------------------------------------------------
// Frontmatter and separator lines
// ---------------------------------------------------------------------------

/// The three-dash delimiter line.
pub open spec fn dash3() -> Seq<char> {
    seq!['-', '-', '-']
}

/// Index of the first line equal to `---` at or after `from`, or -1.
pub open spec fn find_dash_line(ls: Seq<Seq<char>>, from: int) -> int
    decreases ls.len() - from,
{
    if from < 0 || from >= ls.len() {
        -1
    } else if ls[from] == dash3() {
        from
    } else {
        find_dash_line(ls, from + 1)
    }
}

/// The lines with a leading frontmatter block removed: when the first line is
/// `---` and a later line is `---`, everything through the first such later
/// line goes.
pub open spec fn strip_frontmatter_spec(ls: Seq<Seq<char>>) -> Seq<Seq<char>> {
    if ls.len() > 0 && ls[0] == dash3() && find_dash_line(ls, 1) >= 1 {
        ls.skip(find_dash_line(ls, 1) + 1)
    } else {
        ls
    }
}

/// Whether this line is exactly `---`.
fn is_dash3(line: &Vec<char>) -> (r: bool)
    ensures
        r == (line@ == dash3()),
{
    let r = line.len() == 3 && line[0] == '-' && line[1] == '-' && line[2] == '-';
    proof {
        if r {
            assert(line@ =~= dash3());
        }
    }
    r
}

/// Removes a leading frontmatter block delimited by `---` lines.
pub fn strip_frontmatter(ls: Vec<Vec<char>>) -> (r: Vec<Vec<char>>)
    ensures
        views_of(r@) == strip_frontmatter_spec(views_of(ls@)),
{
    let n: usize = ls.len();
    if n == 0 || !is_dash3(&ls[0]) {
        proof {
            if n > 0 {
                assert(views_of(ls@)[0] == ls@[0]@);
            }
        }
        return ls;
    }
    proof {
        assert(views_of(ls@)[0] == ls@[0]@);
    }
    let mut j: usize = 1;
    while j < n && !is_dash3(&ls[j])
        invariant
            1 <= j <= n,
            n == ls@.len(),
            find_dash_line(views_of(ls@), 1) == find_dash_line(views_of(ls@), j as int),
        decreases n - j,
    {
        proof {
            assert(views_of(ls@)[j as int] == ls@[j as int]@);
        }
        j = j + 1;
    }
    if j < n {
        proof {
            assert(views_of(ls@)[j as int] == ls@[j as int]@);
            assert(find_dash_line(views_of(ls@), 1) == j);
        }
        let mut r: Vec<Vec<char>> = Vec::new();
        let mut k: usize = j + 1;
        proof {
            assert(views_of(r@) =~= views_of(ls@).skip(j + 1).take(0));
        }
        while k < n
            invariant
                j + 1 <= k <= n,
                n == ls@.len(),
                views_of(r@) == views_of(ls@).skip(j + 1).take(k - j - 1),
            decreases n - k,
        {
            let line = copy_range(&ls[k], 0, ls[k].len());
            proof {
                assert(line@ =~= ls@[k as int]@);
            }
            r.push(line);
            k = k + 1;
            proof {
                assert(views_of(r@) =~= views_of(r@.drop_last()).push(ls@[k - 1]@));
                assert(views_of(ls@).skip(j + 1).take(k - j - 1) =~= views_of(ls@).skip(
                    j + 1,
                ).take(k - j - 2).push(ls@[k - 1]@));
            }
        }
        proof {
            assert(views_of(ls@).skip(j + 1).take(n - j - 1) =~= views_of(ls@).skip(j + 1));
        }
        r
    } else {
        proof {
            assert(find_dash_line(views_of(ls@), 1) == -1);
        }
        ls
    }
}

/// The lines with every standalone `---` line removed.
pub open spec fn remove_dash_lines_spec(ls: Seq<Seq<char>>) -> Seq<Seq<char>>
    decreases ls.len(),
{
    if ls.len() == 0 {
        Seq::empty()
    } else if ls[0] == dash3() {
        remove_dash_lines_spec(ls.skip(1))
    } else {
        seq![ls[0]] + remove_dash_lines_spec(ls.skip(1))
    }
}

/// Removes every standalone `---` separator line.
pub fn remove_dash_lines(ls: Vec<Vec<char>>) -> (r: Vec<Vec<char>>)
    ensures
        views_of(r@) == remove_dash_lines_spec(views_of(ls@)),
{
    let n: usize = ls.len();
    let mut r: Vec<Vec<char>> = Vec::new();
    let mut i: usize = 0;
    proof {
        assert(views_of(ls@).skip(0) =~= views_of(ls@));
        assert(views_of(r@) =~= Seq::<Seq<char>>::empty());
        assert(views_of(r@) + remove_dash_lines_spec(views_of(ls@)) =~= remove_dash_lines_spec(
            views_of(ls@),
        ));
    }
    while i < n
        invariant
            i <= n,
            n == ls@.len(),
            remove_dash_lines_spec(views_of(ls@)) == views_of(r@) + remove_dash_lines_spec(
                views_of(ls@).skip(i as int),
            ),
        decreases n - i,
    {
        let ghost t = views_of(ls@).skip(i as int);
        proof {
            assert(t[0] == ls@[i as int]@);
            assert(t.skip(1) =~= views_of(ls@).skip(i as int + 1));
        }
        if !is_dash3(&ls[i]) {
            let line = copy_range(&ls[i], 0, ls[i].len());
            proof {
                assert(line@ =~= ls@[i as int]@);
            }
            r.push(line);
            proof {
                assert(views_of(r@) =~= views_of(r@.drop_last()).push(ls@[i as int]@));
                assert(views_of(r@) + remove_dash_lines_spec(t.skip(1)) =~= views_of(
                    r@.drop_last(),
                ) + (seq![t[0]] + remove_dash_lines_spec(t.skip(1))));
            }
        }
        i = i + 1;
    }
    proof {
        assert(views_of(ls@).skip(n as int) =~= Seq::<Seq<char>>::empty());
        assert(views_of(r@) + remove_dash_lines_spec(Seq::<Seq<char>>::empty()) =~= views_of(r@));
    }
    r
}

// ---------------------------------------------------------------------------
// Empty-table-line filter
// ---------------------------------------------------------------------------

/// The lines with every empty table remnant dropped.
pub open spec fn drop_empty_table_lines_spec(ls: Seq<Seq<char>>) -> Seq<Seq<char>>
    decreases ls.len(),
{
    if ls.len() == 0 {
        Seq::empty()
    } else if empty_table_line_spec(ls[0]) {
        drop_empty_table_lines_spec(ls.skip(1))
    } else {
        seq![ls[0]] + drop_empty_table_lines_spec(ls.skip(1))
    }
}

/// Drops every line that is an empty table remnant.
pub fn drop_empty_table_lines(ls: Vec<Vec<char>>) -> (r: Vec<Vec<char>>)
    ensures
        views_of(r@) == drop_empty_table_lines_spec(views_of(ls@)),
{
    let n: usize = ls.len();
    let mut r: Vec<Vec<char>> = Vec::new();
    let mut i: usize = 0;
    proof {
        assert(views_of(ls@).skip(0) =~= views_of(ls@));
        assert(views_of(r@) =~= Seq::<Seq<char>>::empty());
        assert(views_of(r@) + drop_empty_table_lines_spec(views_of(ls@))
            =~= drop_empty_table_lines_spec(views_of(ls@)));
    }
    while i < n
        invariant
            i <= n,
            n == ls@.len(),
            drop_empty_table_lines_spec(views_of(ls@)) == views_of(r@)
                + drop_empty_table_lines_spec(views_of(ls@).skip(i as int)),
        decreases n - i,
    {
        let ghost t = views_of(ls@).skip(i as int);
        proof {
            assert(t[0] == ls@[i as int]@);
            assert(t.skip(1) =~= views_of(ls@).skip(i as int + 1));
        }
        if !empty_table_line(&ls[i]) {
            let line = copy_range(&ls[i], 0, ls[i].len());
            proof {
                assert(line@ =~= ls@[i as int]@);
            }
            r.push(line);
            proof {
                assert(views_of(r@) =~= views_of(r@.drop_last()).push(ls@[i as int]@));
                assert(views_of(r@) + drop_empty_table_lines_spec(t.skip(1)) =~= views_of(
                    r@.drop_last(),
                ) + (seq![t[0]] + drop_empty_table_lines_spec(t.skip(1))));
            }
        }
        i = i + 1;
    }
    proof {
        assert(views_of(ls@).skip(n as int) =~= Seq::<Seq<char>>::empty());
        assert(views_of(r@) + drop_empty_table_lines_spec(Seq::<Seq<char>>::empty()) =~= views_of(
            r@,
        ));
    }
    r
}

} // verus!

verus! {

// ---------------------------------------------------------------------------
// The markdown cleanup pipeline
// ---------------------------------------------------------------------------

/// Rewrites each single-cell list row into emphasized text, over all lines.
fn map_single_cell(ls: Vec<Vec<char>>, dash: bool) -> (r: Vec<Vec<char>>)
    ensures
        views_of(r@) == views_of(ls@).map_values(|l: Seq<char>| single_cell_line(l, dash)),
{
    let n: usize = ls.len();
    let mut r: Vec<Vec<char>> = Vec::new();
    let mut i: usize = 0;
    while i < n
        invariant
            i <= n,
            n == ls@.len(),
            r@.len() == i,
            forall|k: int| 0 <= k < i ==> #[trigger] r@[k]@ == single_cell_line(ls@[k]@, dash),
        decreases n - i,
    {
        let line = rewrite_single_cell(&ls[i], dash);
        r.push(line);
        i = i + 1;
    }
    proof {
        assert forall|k: int| 0 <= k < n implies #[trigger] views_of(r@)[k] == views_of(
            ls@,
        ).map_values(|l: Seq<char>| single_cell_line(l, dash))[k] by {
            assert(views_of(r@)[k] == r@[k]@);
        }
        assert(views_of(r@) =~= views_of(ls@).map_values(
            |l: Seq<char>| single_cell_line(l, dash),
        ));
    }
    r
}

/// Collapses empty adjacent table cells, over all lines.
fn map_collapse_cells(ls: Vec<Vec<char>>) -> (r: Vec<Vec<char>>)
    ensures
        views_of(r@) == views_of(ls@).map_values(|l: Seq<char>| cell_collapse_spec(l)),
{
    let n: usize = ls.len();
    let mut r: Vec<Vec<char>> = Vec::new();
    let mut i: usize = 0;
    while i < n
        invariant
            i <= n,
            n == ls@.len(),
            r@.len() == i,
            forall|k: int| 0 <= k < i ==> #[trigger] r@[k]@ == cell_collapse_spec(ls@[k]@),
        decreases n - i,
    {
        let line = collapse_cells(&ls[i]);
        r.push(line);
        i = i + 1;
    }
    proof {
        assert forall|k: int| 0 <= k < n implies #[trigger] views_of(r@)[k] == views_of(
            ls@,
        ).map_values(|l: Seq<char>| cell_collapse_spec(l))[k] by {
            assert(views_of(r@)[k] == r@[k]@);
        }
        assert(views_of(r@) =~= views_of(ls@).map_values(|l: Seq<char>| cell_collapse_spec(l)));
    }
    r
}

/// Removes invisible characters, over all lines.
fn map_remove_invisible(ls: Vec<Vec<char>>) -> (r: Vec<Vec<char>>)
    ensures
        views_of(r@) == views_of(ls@).map_values(|l: Seq<char>| remove_invisible_spec(l)),
{
    let n: usize = ls.len();
    let mut r: Vec<Vec<char>> = Vec::new();
    let mut i: usize = 0;
    while i < n
        invariant
            i <= n,
            n == ls@.len(),
            r@.len() == i,
            forall|k: int| 0 <= k < i ==> #[trigger] r@[k]@ == remove_invisible_spec(ls@[k]@),
        decreases n - i,
    {
        let line = remove_invisible(&ls[i]);
        r.push(line);
        i = i + 1;
    }
    proof {
        assert forall|k: int| 0 <= k < n implies #[trigger] views_of(r@)[k] == views_of(
            ls@,
        ).map_values(|l: Seq<char>| remove_invisible_spec(l))[k] by {
            assert(views_of(r@)[k] == r@[k]@);
        }
        assert(views_of(r@) =~= views_of(ls@).map_values(
            |l: Seq<char>| remove_invisible_spec(l),
        ));
    }
    r
}

/// The four URL rewrites of the markdown cleanup, in order: links to their
/// labels, angle-bracket links removed, long bare URLs removed, mailto links
/// to their labels.
pub open spec fn url_pass_spec(s: Seq<char>) -> Seq<char> {
    rewrite_links_spec(strip_urls_spec(remove_angle_spec(rewrite_links_spec(s, false)), true), true)
}

/// The whole markdown cleanup: frontmatter and separator lines removed, URL
/// rewrites when `strip` is set, single-cell rows emphasized, empty cells and
/// empty table lines dropped, invisible characters removed, redundant table
/// separators dropped, blank lines collapsed, and the result trimmed.
pub open spec fn clean_markdown_spec(s: Seq<char>, strip: bool) -> Seq<char> {
    let ls2 = remove_dash_lines_spec(strip_frontmatter_spec(lines_spec(s)));
    let t1 = join_spec(ls2);
    let t2 = if strip {
        url_pass_spec(t1)
    } else {
        t1
    };
    let ls4 = lines_spec(t2).map_values(|l: Seq<char>| single_cell_line(l, true));
    let ls5 = ls4.map_values(|l: Seq<char>| single_cell_line(l, false));
    let ls6 = ls5.map_values(|l: Seq<char>| cell_collapse_spec(l));
    let ls8 = drop_empty_table_lines_spec(ls6).map_values(
        |l: Seq<char>| remove_invisible_spec(l),
    );
    let ls9 = sep_dedup_spec(ls8, false, false);
    trim_spec(collapse_newlines_spec(join_spec(ls9)))
}

/// Runs the markdown cleanup over a character vector.
pub fn clean_markdown_chars(v: &Vec<char>, strip: bool) -> (r: Vec<char>)
    ensures
        r@ == clean_markdown_spec(v@, strip),
{
    let ls0 = split_lines(v);
    let ls1 = strip_frontmatter(ls0);
    let ls2 = remove_dash_lines(ls1);
    let t1 = join_lines(&ls2);
    let t2 = if strip {
        let a = rewrite_links(&t1, false);
        let b = remove_angle_urls(&a);
        let c = strip_urls_chars(&b, true);
        rewrite_links(&c, true)
    } else {
        t1
    };
    let ls3 = split_lines(&t2);
    let ls4 = map_single_cell(ls3, true);
    let ls5 = map_single_cell(ls4, false);
    let ls6 = map_collapse_cells(ls5);
    let ls7 = drop_empty_table_lines(ls6);
    let ls8 = map_remove_invisible(ls7);
    let ls9 = dedup_separators(ls8);
    let t3 = join_lines(&ls9);
    let t4 = collapse_newlines(&t3);
    trim_chars(&t4)
}

/// Cleans converter-produced markdown for terminal display.
///
/// Removes frontmatter and stray separators, optionally strips or rewrites
/// hyperlinks, collapses empty table cells and rows, drops invisible
/// characters and redundant table separators, and collapses runs of blank
/// lines, trimming the result.
pub fn clean_markdown(md: &str, strip: bool) -> (r: String)
    ensures
        r@ == clean_markdown_spec(md@, strip),
{
    let v = to_chars(md);
    let out = clean_markdown_chars(&v, strip);
    string_of(&out)
}

/// Removes every long URL: `http://` or `https://` followed by 40 or more
/// non-whitespace characters.
pub fn strip_long_urls(text: &str) -> (r: String)
    ensures
        r@ == strip_urls_spec(text@, false),
{
    let v = to_chars(text);
    let out = strip_urls_chars(&v, false);
    string_of(&out)
}

} // verus!
