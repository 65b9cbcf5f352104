//! Properties of the cleanup passes, proved once and for all: the blank-line
//! bound on cleaned output, and the idempotence of the normalizing passes.

use vstd::prelude::*;
use crate::text::{is_space, trim_spec, trim_start_spec, trim_end_spec};
use crate::cleanup::{collapse_from, collapse_newlines_spec, clean_markdown_spec,
    remove_invisible_spec, is_invisible};

verus! {

/// No three consecutive newlines anywhere in `t`.
pub open spec fn no_triple_newline(t: Seq<char>) -> bool {
    forall|i: int|
        0 <= i && i + 2 < t.len() ==> !(#[trigger] t[i] == '\n' && t[i + 1] == '\n' && t[i + 2]
            == '\n')
}

/// Length of the run of newlines at the start of `t`.
pub open spec fn nl_run(t: Seq<char>) -> nat
    decreases t.len(),
{
    if t.len() > 0 && t[0] == '\n' {
        (1 + nl_run(t.skip(1))) as nat
    } else {
        0
    }
}

/// The first `k` characters of a text whose newline run reaches `k` are
/// newlines.
proof fn lemma_nl_run_ge(t: Seq<char>, k: int)
    requires
        0 <= k <= nl_run(t),
    ensures
        k <= t.len(),
        forall|j: int| 0 <= j < k ==> t[j] == '\n',
    decreases k,
{
    if k > 0 {
        assert(t.len() > 0 && t[0] == '\n');
        lemma_nl_run_ge(t.skip(1), k - 1);
        assert forall|j: int| 0 <= j < k implies t[j] == '\n' by {
            if j > 0 {
                assert(t.skip(1)[j - 1] == t[j]);
            }
        }
    }
}

/// Dropping the first character keeps the three-newline bound.
proof fn lemma_no_triple_skip(t: Seq<char>)
    requires
        no_triple_newline(t),
        t.len() >= 1,
    ensures
        no_triple_newline(t.skip(1)),
{
    assert forall|i: int|
        0 <= i && i + 2 < t.skip(1).len() implies !(#[trigger] t.skip(1)[i] == '\n' && t.skip(1)[i
        + 1] == '\n' && t.skip(1)[i + 2] == '\n') by {
        assert(t.skip(1)[i] == t[i + 1]);
        assert(t.skip(1)[i + 1] == t[i + 2]);
        assert(t.skip(1)[i + 2] == t[i + 3]);
    }
}

/// Without a triple newline, the leading newline run stays at two or less.
proof fn lemma_no_triple_nl_run(t: Seq<char>)
    requires
        no_triple_newline(t),
    ensures
        nl_run(t) <= 2,
{
    if nl_run(t) >= 3 {
        lemma_nl_run_ge(t, 3);
        assert(t[0] == '\n' && t[1] == '\n' && t[2] == '\n');
    }
}

/// The collapsed text has no three consecutive newlines, and starts with at
/// most `2 - run` of them.
proof fn lemma_collapse_no_triple(s: Seq<char>, run: int)
    requires
        0 <= run <= 2,
    ensures
        no_triple_newline(collapse_from(s, run)),
        nl_run(collapse_from(s, run)) <= 2 - run,
    decreases s.len(),
{
    if s.len() == 0 {
    } else if s[0] == '\n' {
        if run >= 2 {
            lemma_collapse_no_triple(s.skip(1), 2);
        } else {
            lemma_collapse_no_triple(s.skip(1), run + 1);
            let rest = collapse_from(s.skip(1), run + 1);
            let out = seq!['\n'] + rest;
            assert(collapse_from(s, run) == out);
            assert(out.skip(1) =~= rest);
            assert(nl_run(out) == 1 + nl_run(rest));
            assert forall|i: int|
                0 <= i && i + 2 < out.len() implies !(#[trigger] out[i] == '\n' && out[i + 1]
                == '\n' && out[i + 2] == '\n') by {
                if i == 0 {
                    if out[0] == '\n' && out[1] == '\n' && out[2] == '\n' {
                        assert(rest[0] == '\n' && rest[1] == '\n');
                        assert(rest.skip(1)[0] == rest[1]);
                        assert(nl_run(rest.skip(1)) >= 1);
                        assert(nl_run(rest) >= 2);
                    }
                } else {
                    assert(out[i] == rest[i - 1]);
                    assert(out[i + 1] == rest[i]);
                    assert(out[i + 2] == rest[i + 1]);
                }
            }
        }
    } else {
        lemma_collapse_no_triple(s.skip(1), 0);
        let rest = collapse_from(s.skip(1), 0);
        let out = seq![s[0]] + rest;
        assert(collapse_from(s, run) == out);
        assert(out[0] != '\n');
        assert forall|i: int|
            0 <= i && i + 2 < out.len() implies !(#[trigger] out[i] == '\n' && out[i + 1] == '\n'
            && out[i + 2] == '\n') by {
            if i > 0 {
                assert(out[i] == rest[i - 1]);
                assert(out[i + 1] == rest[i]);
                assert(out[i + 2] == rest[i + 1]);
            }
        }
    }
}

/// Trimming the front keeps the three-newline bound.
proof fn lemma_trim_start_no_triple(t: Seq<char>)
    requires
        no_triple_newline(t),
    ensures
        no_triple_newline(trim_start_spec(t)),
    decreases t.len(),
{
    if t.len() > 0 && is_space(t[0]) {
        lemma_no_triple_skip(t);
        lemma_trim_start_no_triple(t.skip(1));
    }
}

/// Trimming the back keeps the three-newline bound.
proof fn lemma_trim_end_no_triple(t: Seq<char>)
    requires
        no_triple_newline(t),
    ensures
        no_triple_newline(trim_end_spec(t)),
    decreases t.len(),
{
    if t.len() > 0 && is_space(t[t.len() - 1]) {
        let u = t.take(t.len() - 1);
        assert forall|i: int|
            0 <= i && i + 2 < u.len() implies !(#[trigger] u[i] == '\n' && u[i + 1] == '\n'
            && u[i + 2] == '\n') by {
            assert(u[i] == t[i] && u[i + 1] == t[i + 1] && u[i + 2] == t[i + 2]);
        }
        lemma_trim_end_no_triple(t.take(t.len() - 1));
    }
}

/// Markdown cleanup never lets three newlines stand together: the collapse
/// of blank-line runs comes last but for the final trim, and trimming
/// cannot create one.
pub proof fn lemma_clean_markdown_no_triple_newline(s: Seq<char>, strip: bool)
    ensures
        no_triple_newline(clean_markdown_spec(s, strip)),
{
    let joined = clean_markdown_joined(s, strip);
    lemma_collapse_no_triple(joined, 0);
    lemma_trim_start_no_triple(collapse_newlines_spec(joined));
    lemma_trim_end_no_triple(trim_start_spec(collapse_newlines_spec(joined)));
}

/// The text that the markdown cleanup collapses and trims at its end.
pub open spec fn clean_markdown_joined(s: Seq<char>, strip: bool) -> Seq<char> {
    let ls2 = crate::cleanup::remove_dash_lines_spec(
        crate::cleanup::strip_frontmatter_spec(crate::text::lines_spec(s)),
    );
    let t1 = crate::text::join_spec(ls2);
    let t2 = if strip {
        crate::cleanup::url_pass_spec(t1)
    } else {
        t1
    };
    let ls4 = crate::text::lines_spec(t2).map_values(
        |l: Seq<char>| crate::cleanup::single_cell_line(l, true),
    );
    let ls5 = ls4.map_values(|l: Seq<char>| crate::cleanup::single_cell_line(l, false));
    let ls6 = ls5.map_values(|l: Seq<char>| crate::cleanup::cell_collapse_spec(l));
    let ls8 = crate::cleanup::drop_empty_table_lines_spec(ls6).map_values(
        |l: Seq<char>| remove_invisible_spec(l),
    );
    let ls9 = crate::cleanup::sep_dedup_spec(ls8, false, false);
    crate::text::join_spec(ls9)
}

// ---------------------------------------------------------------------------
// Idempotence of the normalizing passes
// ---------------------------------------------------------------------------

/// A text within the three-newline bound passes the collapse unchanged.
proof fn lemma_collapse_fixed(t: Seq<char>, run: int)
    requires
        0 <= run <= 2,
        no_triple_newline(t),
        nl_run(t) <= 2 - run,
    ensures
        collapse_from(t, run) == t,
    decreases t.len(),
{
    if t.len() == 0 {
        assert(collapse_from(t, run) =~= t);
    } else if t[0] == '\n' {
        assert(nl_run(t) >= 1);
        lemma_no_triple_skip(t);
        lemma_no_triple_nl_run(t.skip(1));
        lemma_collapse_fixed(t.skip(1), run + 1);
        assert(collapse_from(t, run) =~= t);
    } else {
        lemma_no_triple_skip(t);
        lemma_no_triple_nl_run(t.skip(1));
        lemma_collapse_fixed(t.skip(1), 0);
        assert(collapse_from(t, run) =~= t);
    }
}

/// A trimmed-front text starts with a non-space, if anything.
proof fn lemma_trim_start_first(t: Seq<char>)
    ensures
        trim_start_spec(t).len() > 0 ==> !is_space(trim_start_spec(t)[0]),
    decreases t.len(),
{
    if t.len() > 0 && is_space(t[0]) {
        lemma_trim_start_first(t.skip(1));
    }
}

/// A trimmed-back text ends with a non-space, if anything.
proof fn lemma_trim_end_last(t: Seq<char>)
    ensures
        trim_end_spec(t).len() > 0 ==> !is_space(trim_end_spec(t)[trim_end_spec(t).len() - 1]),
    decreases t.len(),
{
    if t.len() > 0 && is_space(t[t.len() - 1]) {
        lemma_trim_end_last(t.take(t.len() - 1));
    }
}

/// Trimming the back keeps the first character, if anything remains.
proof fn lemma_trim_end_first(t: Seq<char>)
    ensures
        trim_end_spec(t).len() > 0 ==> trim_end_spec(t)[0] == t[0],
    decreases t.len(),
{
    if t.len() > 0 && is_space(t[t.len() - 1]) {
        lemma_trim_end_first(t.take(t.len() - 1));
    }
}

/// Trimming whitespace off both ends is idempotent.
pub proof fn lemma_trim_idempotent(s: Seq<char>)
    ensures
        trim_spec(trim_spec(s)) == trim_spec(s),
{
    let y = trim_start_spec(s);
    let t = trim_end_spec(y);
    lemma_trim_start_first(s);
    lemma_trim_end_first(y);
    if t.len() > 0 {
        assert(!is_space(t[0]));
    }
    assert(trim_start_spec(t) == t);
    lemma_trim_end_last(y);
    assert(trim_end_spec(t) == t);
}

/// Collapsing blank-line runs and trimming, taken together, is idempotent:
/// a second pass returns its input unchanged.
pub proof fn lemma_normalize_idempotent(s: Seq<char>)
    ensures
        trim_spec(collapse_newlines_spec(trim_spec(collapse_newlines_spec(s)))) == trim_spec(
            collapse_newlines_spec(s),
        ),
{
    let once = trim_spec(collapse_newlines_spec(s));
    lemma_collapse_no_triple(s, 0);
    lemma_trim_start_no_triple(collapse_newlines_spec(s));
    lemma_trim_end_no_triple(trim_start_spec(collapse_newlines_spec(s)));
    assert(no_triple_newline(once));
    lemma_no_triple_nl_run(once);
    lemma_collapse_fixed(once, 0);
    lemma_trim_idempotent(collapse_newlines_spec(s));
}

/// A text without invisible characters passes the removal unchanged.
proof fn lemma_remove_invisible_fixed(t: Seq<char>)
    requires
        forall|k: int| 0 <= k < t.len() ==> !is_invisible(#[trigger] t[k]),
    ensures
        remove_invisible_spec(t) == t,
    decreases t.len(),
{
    if t.len() > 0 {
        assert(forall|k: int|
            0 <= k < t.skip(1).len() ==> !is_invisible(#[trigger] t.skip(1)[k]));
        lemma_remove_invisible_fixed(t.skip(1));
        assert(remove_invisible_spec(t) =~= t);
    } else {
        assert(remove_invisible_spec(t) =~= t);
    }
}

/// Nothing invisible survives the removal.
proof fn lemma_remove_invisible_clean(s: Seq<char>)
    ensures
        forall|k: int|
            0 <= k < remove_invisible_spec(s).len() ==> !is_invisible(
                #[trigger] remove_invisible_spec(s)[k],
            ),
    decreases s.len(),
{
    if s.len() > 0 {
        lemma_remove_invisible_clean(s.skip(1));
        let rec = remove_invisible_spec(s.skip(1));
        assert forall|k: int|
            0 <= k < remove_invisible_spec(s).len() implies !is_invisible(
            #[trigger] remove_invisible_spec(s)[k],
        ) by {
            if is_invisible(s[0]) {
                assert(remove_invisible_spec(s) == rec);
                assert(!is_invisible(rec[k]));
            } else {
                assert(remove_invisible_spec(s) == seq![s[0]] + rec);
                if k > 0 {
                    assert(remove_invisible_spec(s)[k] == rec[k - 1]);
                    assert(!is_invisible(rec[k - 1]));
                }
            }
        }
    }
}

/// Removing invisible characters is idempotent: a second pass returns its
/// input unchanged.
pub proof fn lemma_remove_invisible_idempotent(s: Seq<char>)
    ensures
        remove_invisible_spec(remove_invisible_spec(s)) == remove_invisible_spec(s),
{
    lemma_remove_invisible_clean(s);
    lemma_remove_invisible_fixed(remove_invisible_spec(s));
}

} // verus!

verus! {

/// The run of whitespace reaches exactly to the first non-space.
proof fn lemma_space_run_exact(t: Seq<char>, k: int)
    requires
        0 <= k < t.len(),
        forall|j: int| 0 <= j < k ==> is_space(#[trigger] t[j]),
        !is_space(t[k]),
    ensures
        crate::cleanup::space_run(t) == k,
    decreases k,
{
    if k == 0 {
    } else {
        assert(is_space(t[0]));
        assert forall|j: int| 0 <= j < k - 1 implies is_space(#[trigger] t.skip(1)[j]) by {
            assert(t.skip(1)[j] == t[j + 1]);
        }
        assert(t.skip(1)[k - 1] == t[k]);
        lemma_space_run_exact(t.skip(1), k - 1);
    }
}

/// The first characters of a whitespace run are whitespace.
proof fn lemma_space_run_ge(t: Seq<char>, k: int)
    requires
        0 <= k <= crate::cleanup::space_run(t),
    ensures
        k <= t.len(),
        forall|j: int| 0 <= j < k ==> is_space(#[trigger] t[j]),
    decreases k,
{
    if k > 0 {
        assert(t.len() > 0 && is_space(t[0]));
        lemma_space_run_ge(t.skip(1), k - 1);
        assert forall|j: int| 0 <= j < k implies is_space(#[trigger] t[j]) by {
            if j > 0 {
                assert(t.skip(1)[j - 1] == t[j]);
            }
        }
    }
}

/// Rewriting single-cell table rows is idempotent per line: a rewritten
/// line never matches again.
pub proof fn lemma_single_cell_idempotent(l: Seq<char>, dash: bool)
    ensures
        crate::cleanup::single_cell_line(
            crate::cleanup::single_cell_line(l, dash),
            dash,
        ) == crate::cleanup::single_cell_line(l, dash),
{
    if crate::cleanup::single_cell_match(l, dash) {
        let out = crate::cleanup::single_cell_result(l, dash);
        let w = crate::cleanup::cell_start(l, dash);
        let t = trim_spec(l.subrange(w + 1, l.len() - 1));
        if crate::cleanup::all_dash_space(t) {
            assert(out.len() == 0);
            assert(!crate::cleanup::single_cell_match(out, dash));
        } else {
            assert(out == l.subrange(0, w) + seq!['*', '*'] + t + seq!['*', '*']);
            if dash {
                assert(l[0] == '-');
                assert(w == 1 + crate::cleanup::space_run(l.skip(1)));
                lemma_space_run_ge(l.skip(1), w - 1);
                assert(out[0] == l.subrange(0, w)[0]);
                assert(out[0] == '-');
                // the characters after the dash are the same whitespace run,
                // now ended by an asterisk
                assert forall|j: int| 0 <= j < w - 1 implies is_space(
                    #[trigger] out.skip(1)[j],
                ) by {
                    assert(out.skip(1)[j] == out[j + 1]);
                    assert(out[j + 1] == l.subrange(0, w)[j + 1]);
                    assert(l.subrange(0, w)[j + 1] == l[j + 1]);
                    assert(l.skip(1)[j] == l[j + 1]);
                }
                assert(out.skip(1)[w - 1] == out[w]);
                assert(out[w] == '*');
                lemma_space_run_exact(out.skip(1), w - 1);
                assert(crate::cleanup::cell_start(out, dash) == w);
                assert(out[w] != '|');
                assert(!crate::cleanup::single_cell_match(out, dash));
            } else {
                assert(out[0] == '*');
                assert(crate::cleanup::cell_start(out, dash) == 0);
                assert(!crate::cleanup::single_cell_match(out, dash));
            }
        }
        assert(crate::cleanup::single_cell_line(out, dash) == out);
    }
}

} // verus!

verus! {

/// Removing standalone `---` lines is idempotent: the first pass leaves no
/// such line behind.
pub proof fn lemma_remove_dash_lines_idempotent(ls: Seq<Seq<char>>)
    ensures
        crate::cleanup::remove_dash_lines_spec(crate::cleanup::remove_dash_lines_spec(ls))
            == crate::cleanup::remove_dash_lines_spec(ls),
    decreases ls.len(),
{
    if ls.len() > 0 {
        lemma_remove_dash_lines_idempotent(ls.skip(1));
        let rec = crate::cleanup::remove_dash_lines_spec(ls.skip(1));
        if ls[0] == crate::cleanup::dash3() {
        } else {
            let out = seq![ls[0]] + rec;
            assert(crate::cleanup::remove_dash_lines_spec(ls) == out);
            assert(out.skip(1) =~= rec);
            assert(crate::cleanup::remove_dash_lines_spec(out) =~= out);
        }
    }
}

/// Dropping empty table remnants is idempotent: the first pass leaves no
/// such line behind.
pub proof fn lemma_drop_empty_table_lines_idempotent(ls: Seq<Seq<char>>)
    ensures
        crate::cleanup::drop_empty_table_lines_spec(
            crate::cleanup::drop_empty_table_lines_spec(ls),
        ) == crate::cleanup::drop_empty_table_lines_spec(ls),
    decreases ls.len(),
{
    if ls.len() > 0 {
        lemma_drop_empty_table_lines_idempotent(ls.skip(1));
        let rec = crate::cleanup::drop_empty_table_lines_spec(ls.skip(1));
        if crate::cleanup::empty_table_line_spec(ls[0]) {
        } else {
            let out = seq![ls[0]] + rec;
            assert(crate::cleanup::drop_empty_table_lines_spec(ls) == out);
            assert(out.skip(1) =~= rec);
            assert(crate::cleanup::drop_empty_table_lines_spec(out) =~= out);
        }
    }
}

/// Dropping redundant table separators is idempotent: within each run of
/// table rows the first pass keeps one separator at most, and a second pass
/// keeps exactly the same lines.
pub proof fn lemma_sep_dedup_idempotent(ls: Seq<Seq<char>>, in_table: bool, had: bool)
    ensures
        crate::cleanup::sep_dedup_spec(
            crate::cleanup::sep_dedup_spec(ls, in_table, had),
            in_table,
            had,
        ) == crate::cleanup::sep_dedup_spec(ls, in_table, had),
    decreases ls.len(),
{
    if ls.len() > 0 {
        let l = ls[0];
        let is_tr = crate::cleanup::table_row_line_spec(l);
        let is_sep = crate::cleanup::is_sep_line_spec(l);
        if is_tr && is_sep && in_table && had {
            lemma_sep_dedup_idempotent(ls.skip(1), in_table, had);
        } else if is_tr {
            lemma_sep_dedup_idempotent(ls.skip(1), true, had || is_sep);
            let rec = crate::cleanup::sep_dedup_spec(ls.skip(1), true, had || is_sep);
            let out = seq![l] + rec;
            assert(crate::cleanup::sep_dedup_spec(ls, in_table, had) == out);
            assert(out.skip(1) =~= rec);
            assert(crate::cleanup::sep_dedup_spec(out, in_table, had) =~= out);
        } else {
            lemma_sep_dedup_idempotent(ls.skip(1), false, false);
            let rec = crate::cleanup::sep_dedup_spec(ls.skip(1), false, false);
            let out = seq![l] + rec;
            assert(crate::cleanup::sep_dedup_spec(ls, in_table, had) == out);
            assert(out.skip(1) =~= rec);
            assert(crate::cleanup::sep_dedup_spec(out, in_table, had) =~= out);
        }
    }
}

} // verus!

verus! {

// ---------------------------------------------------------------------------
// The layout pass and blank lines
// ---------------------------------------------------------------------------

/// No newline anywhere in `l`.
pub open spec fn nl_free(l: Seq<char>) -> bool {
    forall|k: int| 0 <= k < l.len() ==> l[k] != '\n'
}

/// No two adjacent empty lines standing strictly inside the sequence: such a
/// pair is what makes three newlines meet when the lines are joined.
pub open spec fn no_blank_pair(ls: Seq<Seq<char>>) -> bool {
    forall|k: int|
        1 <= k && k + 2 < ls.len() ==> !(#[trigger] ls[k].len() == 0 && ls[k + 1].len() == 0)
}

/// Split lines hold no newline.
proof fn lemma_lines_acc_nl_free(cur: Seq<char>, s: Seq<char>)
    requires
        nl_free(cur),
    ensures
        forall|j: int|
            0 <= j < crate::text::lines_acc(cur, s).len() ==> nl_free(
                #[trigger] crate::text::lines_acc(cur, s)[j],
            ),
    decreases s.len(),
{
    if s.len() == 0 {
        assert(crate::text::lines_acc(cur, s) == seq![cur]);
        assert(crate::text::lines_acc(cur, s)[0] == cur);
    } else if s[0] == '\n' {
        lemma_lines_acc_nl_free(Seq::empty(), s.skip(1));
        let rest = crate::text::lines_acc(Seq::empty(), s.skip(1));
        assert forall|j: int|
            0 <= j < crate::text::lines_acc(cur, s).len() implies nl_free(
            #[trigger] crate::text::lines_acc(cur, s)[j],
        ) by {
            if j >= 1 {
                assert(crate::text::lines_acc(cur, s)[j] == rest[j - 1]);
            } else {
                assert(crate::text::lines_acc(cur, s)[0] == cur);
            }
        }
    } else {
        assert(nl_free(cur.push(s[0]))) by {
            assert(forall|k: int| 0 <= k < cur.len() ==> cur.push(s[0])[k] == cur[k]);
            assert(cur.push(s[0])[cur.len() as int] == s[0]);
        }
        lemma_lines_acc_nl_free(cur.push(s[0]), s.skip(1));
        let rec = crate::text::lines_acc(cur.push(s[0]), s.skip(1));
        assert(crate::text::lines_acc(cur, s) == rec);
        assert forall|j: int|
            0 <= j < crate::text::lines_acc(cur, s).len() implies nl_free(
            #[trigger] crate::text::lines_acc(cur, s)[j],
        ) by {
            assert(crate::text::lines_acc(cur, s)[j] == rec[j]);
        }
    }
}

/// A split whose first line is empty started with nothing carried and a
/// newline (or the end) up front.
proof fn lemma_lines_acc_first(cur: Seq<char>, s: Seq<char>)
    ensures
        crate::text::lines_acc(cur, s)[0].len() == 0 ==> (cur.len() == 0 && (s.len() == 0 || s[0]
            == '\n')),
        crate::text::lines_acc(cur, s).len() >= 1,
    decreases s.len(),
{
    if s.len() == 0 {
    } else if s[0] == '\n' {
    } else {
        lemma_lines_acc_first(cur.push(s[0]), s.skip(1));
    }
}

/// A text within the three-newline bound splits into lines without an
/// interior pair of adjacent empty lines.
proof fn lemma_no_triple_lines(cur: Seq<char>, s: Seq<char>)
    requires
        no_triple_newline(s),
    ensures
        no_blank_pair(crate::text::lines_acc(cur, s)),
    decreases s.len(),
{
    if s.len() == 0 {
    } else if s[0] == '\n' {
        lemma_no_triple_skip(s);
        lemma_no_triple_lines(Seq::empty(), s.skip(1));
        let rest = crate::text::lines_acc(Seq::empty(), s.skip(1));
        let ls = crate::text::lines_acc(cur, s);
        assert(ls == seq![cur] + rest);
        assert forall|k: int|
            1 <= k && k + 2 < ls.len() implies !(#[trigger] ls[k].len() == 0 && ls[k + 1].len()
            == 0) by {
            assert(ls[k] == rest[k - 1]);
            assert(ls[k + 1] == rest[k]);
            if k == 1 {
                if rest[0].len() == 0 && rest[1].len() == 0 {
                    // the text would have to open with three newlines
                    lemma_lines_acc_first(Seq::empty(), s.skip(1));
                    assert(s.skip(1).len() > 0 && s.skip(1)[0] == '\n');
                    assert(s[1] == s.skip(1)[0]);
                    let s2 = s.skip(1).skip(1);
                    assert(s2 =~= s.skip(2));
                    assert(rest == seq![Seq::<char>::empty()] + crate::text::lines_acc(
                        Seq::empty(),
                        s2,
                    ));
                    assert(rest[1] == crate::text::lines_acc(Seq::empty(), s2)[0]);
                    lemma_lines_acc_first(Seq::empty(), s2);
                    if s2.len() == 0 {
                        assert(crate::text::lines_acc(Seq::empty(), s2).len() == 1);
                        assert(rest.len() == 2);
                    } else {
                        assert(s2[0] == '\n');
                        assert(s[2] == s.skip(2)[0]);
                        assert(s[0] == '\n' && s[1] == '\n' && s[2] == '\n');
                    }
                }
            }
        }
    } else {
        lemma_no_triple_skip(s);
        lemma_no_triple_lines(cur.push(s[0]), s.skip(1));
    }
}

} // verus!

verus! {

/// Every line of a table box is non-empty and holds no newline, as long as
/// the rows themselves hold none.
proof fn lemma_box_lines(rows: Seq<Seq<char>>)
    requires
        forall|m: int| 0 <= m < rows.len() ==> nl_free(#[trigger] rows[m]),
    ensures
        forall|q: int|
            0 <= q < crate::layout::table_box_spec(rows).len() ==> #[trigger] crate::layout::table_box_spec(
                rows,
            )[q].len() > 0,
        forall|q: int|
            0 <= q < crate::layout::table_box_spec(rows).len() ==> nl_free(
                #[trigger] crate::layout::table_box_spec(rows)[q],
            ),
{
    let w = crate::layout::max_width(rows);
    let bx = crate::layout::table_box_spec(rows);
    let mapped = rows.map_values(|r2: Seq<char>| crate::layout::boxed_row(r2, w));
    lemma_char_repeat_nl_free('\u{2500}', w + 2);
    assert forall|q: int| 0 <= q < bx.len() implies #[trigger] bx[q].len() > 0 && nl_free(
        bx[q],
    ) by {
        if q == 0 {
            assert(bx[0] == crate::layout::top_border(w));
        } else if q <= rows.len() {
            assert(bx[q] == mapped[q - 1]);
            assert(mapped[q - 1] == crate::layout::boxed_row(rows[q - 1], w));
            lemma_row_color_nl_free(rows[q - 1]);
            lemma_char_repeat_nl_free(' ', w - rows[q - 1].len() + 1);
        } else {
            assert(bx[q] == crate::layout::bottom_border(w));
        }
    }
}

/// Every character of a repeat is the repeated one, so no newline when that
/// one is none.
proof fn lemma_char_repeat_nl_free(c: char, n: int)
    requires
        c != '\n',
    ensures
        nl_free(crate::layout::char_repeat(c, n)),
{
    crate::layout::lemma_char_repeat(c, n);
}

/// Coloring a row introduces no newline.
proof fn lemma_row_color_nl_free(row: Seq<char>)
    requires
        nl_free(row),
    ensures
        nl_free(crate::layout::row_color_spec(row)),
    decreases row.len(),
{
    if row.len() == 0 {
    } else if is_space(row[0]) {
        assert(nl_free(row.skip(1))) by {
            assert(forall|k: int| 0 <= k < row.len() - 1 ==> row.skip(1)[k] == row[k + 1]);
        }
        lemma_row_color_nl_free(row.skip(1));
    } else {
        let r0 = crate::layout::nonspace_run(row) as int;
        let r = if r0 > row.len() {
            row.len() as int
        } else {
            r0
        };
        assert(nl_free(row.skip(r))) by {
            assert(forall|k: int| 0 <= k < row.len() - r ==> row.skip(r)[k] == row[k + r]);
        }
        lemma_row_color_nl_free(row.skip(r));
        assert(nl_free(row.take(r))) by {
            assert(forall|k: int| 0 <= k < r ==> row.take(r)[k] == row[k]);
        }
    }
}

/// A line keeps its newlines away and its emptiness exactly through the
/// per-line coloring.
proof fn lemma_line_colored(l: Seq<char>)
    requires
        nl_free(l),
    ensures
        nl_free(crate::layout::line_colored(l)),
        crate::layout::line_colored(l).len() == 0 <==> l.len() == 0,
{
}

/// The retained rows of a span are rows of the line sequence, so they hold
/// no newline when the lines hold none.
proof fn lemma_retained_nl_free(ls: Seq<Seq<char>>, a: int, b: int)
    requires
        forall|m: int| 0 <= m < ls.len() ==> nl_free(#[trigger] ls[m]),
    ensures
        forall|m: int|
            0 <= m < crate::layout::retained_rows(ls, a, b).len() ==> nl_free(
                #[trigger] crate::layout::retained_rows(ls, a, b)[m],
            ),
    decreases b - a,
{
    if a < 0 || a >= b || a >= ls.len() {
    } else {
        lemma_retained_nl_free(ls, a + 1, b);
        let rec = crate::layout::retained_rows(ls, a + 1, b);
        let whole = crate::layout::retained_rows(ls, a, b);
        assert forall|m: int| 0 <= m < whole.len() implies nl_free(#[trigger] whole[m]) by {
            if crate::layout::blank_line_spec(ls[a]) {
                assert(whole[m] == rec[m]);
            } else {
                if m == 0 {
                    assert(whole[0] == ls[a]);
                } else {
                    assert(whole[m] == rec[m - 1]);
                }
            }
        }
    }
}

/// A colored line sequence that starts empty started from an empty line.
proof fn lemma_color_first(ls: Seq<Seq<char>>, j: int)
    requires
        forall|m: int| 0 <= m < ls.len() ==> nl_free(#[trigger] ls[m]),
        crate::layout::color_lines(ls, j).len() >= 1,
    ensures
        0 <= j < ls.len(),
        crate::layout::color_lines(ls, j)[0].len() == 0 ==> ls[j].len() == 0,
{
    let out = crate::layout::color_lines(ls, j);
    if j < 0 || j >= ls.len() {
        assert(out.len() == 0);
    } else if crate::layout::table_row_spec(ls[j]) {
        let span = crate::layout::table_span_len(ls, j + 1) as int;
        let jj = if j + 1 + span > ls.len() {
            ls.len() as int
        } else {
            j + 1 + span
        };
        let rows = seq![ls[j]] + crate::layout::retained_rows(ls, j + 1, jj);
        if rows.len() >= 2 {
            assert(out[0] == crate::layout::table_box_spec(rows)[0]);
            assert forall|m: int| 0 <= m < rows.len() implies nl_free(#[trigger] rows[m]) by {
                if m >= 1 {
                    lemma_retained_nl_free(ls, j + 1, jj);
                    assert(rows[m] == crate::layout::retained_rows(ls, j + 1, jj)[m - 1]);
                }
            }
            lemma_box_lines(rows);
        } else {
            assert(out[0] == crate::layout::line_colored(ls[j]));
            lemma_line_colored(ls[j]);
        }
    } else {
        assert(out[0] == crate::layout::line_colored(ls[j]));
        lemma_line_colored(ls[j]);
    }
}

/// Two empty lines opening a colored suffix come from two adjacent empty
/// input lines standing strictly inside the input.
proof fn lemma_color_two_blank(ls: Seq<Seq<char>>, j: int)
    requires
        forall|m: int| 0 <= m < ls.len() ==> nl_free(#[trigger] ls[m]),
        0 <= j,
        crate::layout::color_lines(ls, j).len() >= 3,
        crate::layout::color_lines(ls, j)[0].len() == 0,
        crate::layout::color_lines(ls, j)[1].len() == 0,
    ensures
        j + 2 < ls.len(),
        ls[j].len() == 0,
        ls[j + 1].len() == 0,
{
    let out = crate::layout::color_lines(ls, j);
    lemma_color_first(ls, j);
    // an empty line is never a table row
    assert(!crate::layout::table_row_spec(ls[j]));
    assert(out == seq![crate::layout::line_colored(ls[j])] + crate::layout::color_lines(
        ls,
        j + 1,
    ));
    let out1 = crate::layout::color_lines(ls, j + 1);
    assert(out1[0] == out[1]);
    assert(out1.len() >= 2);
    lemma_color_first(ls, j + 1);
    assert(ls[j + 1].len() == 0);
    assert(!crate::layout::table_row_spec(ls[j + 1]));
    assert(out1 == seq![crate::layout::line_colored(ls[j + 1])] + crate::layout::color_lines(
        ls,
        j + 2,
    ));
    assert(crate::layout::color_lines(ls, j + 2).len() >= 1);
    lemma_color_first(ls, j + 2);
}

} // verus!

verus! {

/// The layout pass keeps its lines newline-free and never produces an
/// interior pair of adjacent empty lines: colored lines are empty exactly
/// when their input line is, box lines never are, and blank lines vanish
/// only inside table runs, between non-empty box lines.
proof fn lemma_color_preserves(ls: Seq<Seq<char>>, i: int)
    requires
        forall|m: int| 0 <= m < ls.len() ==> nl_free(#[trigger] ls[m]),
        no_blank_pair(ls),
        0 <= i,
    ensures
        forall|m: int|
            0 <= m < crate::layout::color_lines(ls, i).len() ==> nl_free(
                #[trigger] crate::layout::color_lines(ls, i)[m],
            ),
        no_blank_pair(crate::layout::color_lines(ls, i)),
    decreases ls.len() - i,
{
    let out = crate::layout::color_lines(ls, i);
    if i >= ls.len() {
    } else {
        let boxed: bool = crate::layout::table_row_spec(ls[i]) && {
            let span = crate::layout::table_span_len(ls, i + 1) as int;
            let j = if i + 1 + span > ls.len() {
                ls.len() as int
            } else {
                i + 1 + span
            };
            let rows = seq![ls[i]] + crate::layout::retained_rows(ls, i + 1, j);
            rows.len() >= 2
        };
        if boxed {
            let span = crate::layout::table_span_len(ls, i + 1) as int;
            let j = if i + 1 + span > ls.len() {
                ls.len() as int
            } else {
                i + 1 + span
            };
            let rows = seq![ls[i]] + crate::layout::retained_rows(ls, i + 1, j);
            lemma_color_preserves(ls, j);
            let head = crate::layout::table_box_spec(rows);
            let tail = crate::layout::color_lines(ls, j);
            assert(out == head + tail);
            assert forall|m: int| 0 <= m < rows.len() implies nl_free(#[trigger] rows[m]) by {
                if m >= 1 {
                    lemma_retained_nl_free(ls, i + 1, j);
                    assert(rows[m] == crate::layout::retained_rows(ls, i + 1, j)[m - 1]);
                }
            }
            lemma_box_lines(rows);
            let hl = head.len() as int;
            assert forall|m: int| 0 <= m < out.len() implies nl_free(#[trigger] out[m]) by {
                if m < hl {
                    assert(out[m] == head[m]);
                } else {
                    assert(out[m] == tail[m - hl]);
                }
            }
            assert forall|k: int|
                1 <= k && k + 2 < out.len() implies !(#[trigger] out[k].len() == 0 && out[k
                + 1].len() == 0) by {
                if k < hl {
                    assert(out[k] == head[k]);
                    assert(head[k].len() > 0);
                } else if k == hl {
                    if out[k].len() == 0 && out[k + 1].len() == 0 {
                        assert(tail[0] == out[k] && tail[1] == out[k + 1]);
                        assert(tail.len() >= 3);
                        lemma_color_two_blank(ls, j);
                        assert(!(ls[j].len() == 0 && ls[j + 1].len() == 0));
                    }
                } else {
                    assert(out[k] == tail[k - hl]);
                    assert(out[k + 1] == tail[k - hl + 1]);
                    assert(!(tail[k - hl].len() == 0 && tail[k - hl + 1].len() == 0));
                }
            }
        } else {
            lemma_color_preserves(ls, i + 1);
            let head = crate::layout::line_colored(ls[i]);
            let tail = crate::layout::color_lines(ls, i + 1);
            assert(out == seq![head] + tail);
            lemma_line_colored(ls[i]);
            assert forall|m: int| 0 <= m < out.len() implies nl_free(#[trigger] out[m]) by {
                if m >= 1 {
                    assert(out[m] == tail[m - 1]);
                }
            }
            assert forall|k: int|
                1 <= k && k + 2 < out.len() implies !(#[trigger] out[k].len() == 0 && out[k
                + 1].len() == 0) by {
                assert(out[k] == tail[k - 1]);
                assert(out[k + 1] == tail[k]);
                if k == 1 {
                    if out[k].len() == 0 && out[k + 1].len() == 0 {
                        assert(tail.len() >= 3);
                        lemma_color_two_blank(ls, i + 1);
                        assert(!(ls[i + 1].len() == 0 && ls[i + 2].len() == 0));
                    }
                } else {
                    assert(!(tail[k - 1].len() == 0 && tail[k].len() == 0));
                }
            }
        }
    }
}

/// Joining newline-free lines that have no interior pair of adjacent empty
/// lines yields a text within the three-newline bound.
proof fn lemma_join_no_triple(ls: Seq<Seq<char>>)
    requires
        forall|m: int| 0 <= m < ls.len() ==> nl_free(#[trigger] ls[m]),
        no_blank_pair(ls),
    ensures
        no_triple_newline(crate::text::join_spec(ls)),
    decreases ls.len(),
{
    let out = crate::text::join_spec(ls);
    if ls.len() == 0 {
    } else if ls.len() == 1 {
        assert(out == ls[0]);
        assert forall|p: int|
            0 <= p && p + 2 < out.len() implies !(#[trigger] out[p] == '\n' && out[p + 1] == '\n'
            && out[p + 2] == '\n') by {
            assert(out[p] != '\n');
        }
    } else {
        let rest = ls.skip(1);
        assert forall|m: int| 0 <= m < rest.len() implies nl_free(#[trigger] rest[m]) by {
            assert(rest[m] == ls[m + 1]);
        }
        assert forall|k: int|
            1 <= k && k + 2 < rest.len() implies !(#[trigger] rest[k].len() == 0 && rest[k
            + 1].len() == 0) by {
            assert(rest[k] == ls[k + 1]);
            assert(rest[k + 1] == ls[k + 2]);
            assert(!(ls[k + 1].len() == 0 && ls[k + 2].len() == 0));
        }
        lemma_join_no_triple(rest);
        let a = ls[0];
        let b = crate::text::join_spec(rest);
        let al = a.len() as int;
        assert(out == a.push('\n') + b);
        // the joined tail never opens with two newlines
        assert(!(b.len() >= 2 && b[0] == '\n' && b[1] == '\n')) by {
            if b.len() >= 2 && b[0] == '\n' && b[1] == '\n' {
                assert(rest.len() >= 2) by {
                    if rest.len() == 1 {
                        assert(b == rest[0]);
                        assert(b[0] != '\n');
                    }
                }
                let b2 = crate::text::join_spec(rest.skip(1));
                assert(b == rest[0].push('\n') + b2);
                assert(rest[0].len() == 0) by {
                    if rest[0].len() > 0 {
                        assert(b[0] == rest[0][0]);
                        assert(rest[0][0] != '\n');
                    }
                }
                assert(b[1] == b2[0]);
                assert(rest.skip(1).len() >= 1);
                assert(rest.skip(1).len() >= 2) by {
                    if rest.skip(1).len() == 1 {
                        assert(b2 == rest.skip(1)[0]);
                        assert(rest.skip(1)[0] == ls[2]);
                        assert(b2[0] != '\n');
                    }
                }
                assert(rest.skip(1)[0] == ls[2]);
                assert(ls[2].len() == 0) by {
                    if ls[2].len() > 0 {
                        assert(b2 == rest.skip(1)[0].push('\n') + crate::text::join_spec(
                            rest.skip(1).skip(1),
                        ));
                        assert(b2[0] == ls[2][0]);
                        assert(ls[2][0] != '\n');
                    }
                }
                assert(rest[0] == ls[1]);
                assert(ls.len() >= 4);
                assert(!(ls[1].len() == 0 && ls[2].len() == 0));
            }
        }
        assert forall|p: int|
            0 <= p && p + 2 < out.len() implies !(#[trigger] out[p] == '\n' && out[p + 1] == '\n'
            && out[p + 2] == '\n') by {
            if p < al {
                assert(out[p] == a[p]);
                assert(a[p] != '\n');
            } else if p == al {
                assert(out[p + 1] == b[0]);
                assert(out[p + 2] == b[1]);
            } else {
                assert(out[p] == b[p - al - 1]);
                assert(out[p + 1] == b[p - al]);
                assert(out[p + 2] == b[p - al + 1]);
                assert(!(b[p - al - 1] == '\n' && b[p - al] == '\n' && b[p - al + 1] == '\n'));
            }
        }
    }
}

/// The lightweight cleanup never lets three newlines stand together: blank
/// runs are collapsed before layout, the layout pass introduces no new
/// blank-line pair, and trimming cannot create one.
pub proof fn lemma_clean_text_no_triple_newline(s: Seq<char>, strip: bool)
    ensures
        no_triple_newline(crate::render::clean_text_spec(s, strip)),
{
    let t1 = if strip {
        crate::cleanup::strip_urls_spec(s, false)
    } else {
        s
    };
    let x = collapse_newlines_spec(remove_invisible_spec(t1));
    lemma_collapse_no_triple(remove_invisible_spec(t1), 0);
    let ls = crate::text::lines_spec(x);
    lemma_lines_acc_nl_free(Seq::empty(), x);
    lemma_no_triple_lines(Seq::empty(), x);
    lemma_color_preserves(ls, 0);
    lemma_join_no_triple(crate::layout::color_lines(ls, 0));
    lemma_trim_start_no_triple(crate::layout::add_colors_spec(x));
    lemma_trim_end_no_triple(trim_start_spec(crate::layout::add_colors_spec(x)));
}

} // verus!
