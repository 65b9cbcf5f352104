//! Pure parsing for the mail-sync driver: mbsync statistics, notmuch search
//! summaries, channel lists, and notification text.

use vstd::prelude::*;
use crate::text::{is_space, trim_spec, trim_chars, lines_spec, views_of, split_lines, join_spec,
    to_chars, string_of, copy_range};
use crate::cleanup::find_char_spec;
use crate::layout::words_of;

verus! {

// ---------------------------------------------------------------------------
// Decimal tokens
// ---------------------------------------------------------------------------

/// Whether `c` is an ASCII digit.
pub open spec fn is_digit(c: char) -> bool {
    48 <= (c as u32) && (c as u32) <= 57
}

/// Every character is an ASCII digit.
pub open spec fn all_digits(s: Seq<char>) -> bool {
    forall|k: int| 0 <= k < s.len() ==> is_digit(#[trigger] s[k])
}

/// The numeric value of a digit string.
pub open spec fn digits_val(s: Seq<char>) -> int
    decreases s.len(),
{
    if s.len() == 0 {
        0
    } else {
        digits_val(s.drop_last()) * 10 + ((s[s.len() - 1] as u32) as int - 48)
    }
}

/// The token with one leading plus sign removed.
pub open spec fn token_body(s: Seq<char>) -> Seq<char> {
    if s.len() > 0 && s[0] == '+' {
        s.skip(1)
    } else {
        s
    }
}

/// Whether a digit string parses as a machine-sized number.
pub open spec fn parse_ok(b: Seq<char>) -> bool {
    b.len() >= 1 && all_digits(b) && digits_val(b) <= usize::MAX
}

/// The value of a digit string is never negative.
pub proof fn lemma_digits_val_nonneg(s: Seq<char>)
    requires
        all_digits(s),
    ensures
        digits_val(s) >= 0,
    decreases s.len(),
{
    if s.len() > 0 {
        assert(all_digits(s.drop_last())) by {
            assert(forall|k: int| 0 <= k < s.len() - 1 ==> s.drop_last()[k] == s[k]);
        }
        lemma_digits_val_nonneg(s.drop_last());
        assert(digits_val(s.drop_last()) * 10 >= 0) by (nonlinear_arith)
            requires
                digits_val(s.drop_last()) >= 0,
        ;
    }
}

/// A digit string is worth at least as much as any of its prefixes.
pub proof fn lemma_digits_val_mono(s: Seq<char>, k: int)
    requires
        all_digits(s),
        0 <= k <= s.len(),
    ensures
        digits_val(s) >= digits_val(s.take(k)),
    decreases s.len() - k,
{
    if k < s.len() {
        lemma_digits_val_mono(s, k + 1);
        let t = s.take(k + 1);
        assert(t.drop_last() =~= s.take(k));
        assert(all_digits(t)) by {
            assert(forall|q: int| 0 <= q < k + 1 ==> t[q] == s[q]);
        }
        assert(all_digits(s.take(k))) by {
            assert(forall|q: int| 0 <= q < k ==> s.take(k)[q] == s[q]);
        }
        lemma_digits_val_nonneg(s.take(k));
        assert(digits_val(t) == digits_val(s.take(k)) * 10 + ((t[k] as u32) as int - 48));
        assert(digits_val(s.take(k)) * 10 >= digits_val(s.take(k))) by (nonlinear_arith)
            requires
                digits_val(s.take(k)) >= 0,
        ;
        assert((t[k] as u32) as int - 48 >= 0);
    } else {
        assert(s.take(k) =~= s);
    }
}

/// Parses a decimal token: an optional plus sign, then digits, rejecting
/// anything else or a value beyond the machine range.
pub fn parse_usize_chars(v: &Vec<char>) -> (r: Option<usize>)
    ensures
        r is Some <==> parse_ok(token_body(v@)),
        r is Some ==> r->0 == digits_val(token_body(v@)),
{
    let n: usize = v.len();
    let start: usize = if n > 0 && v[0] == '+' {
        1
    } else {
        0
    };
    let ghost b = token_body(v@);
    proof {
        if start == 1 {
            assert(b =~= v@.skip(1));
        } else {
            assert(b =~= v@);
        }
        assert(forall|k: int| 0 <= k < b.len() ==> b[k] == v@[start + k]);
    }
    if start == n {
        return None;
    }
    let mut acc: u128 = 0;
    let mut i: usize = start;
    proof {
        assert(b.take(0) =~= Seq::<char>::empty());
    }
    while i < n
        invariant
            start <= i <= n,
            n == v@.len(),
            b == token_body(v@),
            b.len() == n - start,
            forall|k: int| 0 <= k < b.len() ==> b[k] == v@[start + k],
            all_digits(b.take(i - start)),
            acc == digits_val(b.take(i - start)),
            acc <= 0xFFFF_FFFF_FFFF_FFFFu128 * 16,
        decreases n - i,
    {
        let c = v[i];
        let u: u32 = c as u32;
        if !(48 <= u && u <= 57) {
            proof {
                assert(b[i - start] == v@[i as int]);
                assert(!is_digit(b[i - start]));
            }
            return None;
        }
        if acc > usize::MAX as u128 {
            // the value can only grow: reject
            proof {
                if all_digits(b) {
                    lemma_digits_val_mono(b, i - start);
                }
                assert(!parse_ok(b));
            }
            return None;
        }
        let d: u128 = (u - 48) as u128;
        acc = acc * 10 + d;
        i = i + 1;
        proof {
            let t = b.take(i - start);
            assert(t.drop_last() =~= b.take(i - start - 1));
            assert(t[t.len() - 1] == b[i - start - 1]);
            assert(b[i - start - 1] == v@[i as int - 1]);
            assert(all_digits(t)) by {
                assert(forall|q: int| 0 <= q < t.len() ==> t[q] == b[q]);
            }
        }
    }
    proof {
        assert(b.take(n - start) =~= b);
    }
    if acc > usize::MAX as u128 {
        proof {
            assert(digits_val(b) > usize::MAX);
        }
        None
    } else {
        Some(acc as usize)
    }
}

// ---------------------------------------------------------------------------
// Substring search
// ---------------------------------------------------------------------------

/// Whether `m` occurs in `s` at position `i`, exactly.
pub open spec fn substr_at(s: Seq<char>, i: int, m: Seq<char>) -> bool {
    &&& 0 <= i
    &&& i + m.len() <= s.len()
    &&& forall|j: int| 0 <= j < m.len() ==> s[i + j] == #[trigger] m[j]
}

/// Whether `m` occurs anywhere in `s`.
pub open spec fn contains_sub(s: Seq<char>, m: Seq<char>) -> bool {
    exists|i: int| substr_at(s, i, m)
}

/// Searches `v` for an exact occurrence of `pat`.
pub fn contains_exact(v: &Vec<char>, pat: &Vec<char>) -> (r: bool)
    ensures
        r == contains_sub(v@, pat@),
{
    let n: usize = v.len();
    let m: usize = pat.len();
    if m > n {
        proof {
            assert(forall|i: int| !substr_at(v@, i, pat@));
        }
        return false;
    }
    let mut i: usize = 0;
    while i <= n - m
        invariant
            i <= n,
            m <= n,
            n == v@.len(),
            m == pat@.len(),
            forall|q: int| 0 <= q < i ==> !substr_at(v@, q, pat@),
        decreases n - i,
    {
        let mut j: usize = 0;
        let mut all: bool = true;
        while j < m
            invariant
                j <= m,
                i <= n - m,
                m <= n,
                n == v@.len(),
                m == pat@.len(),
                all == (forall|q: int| 0 <= q < j ==> v@[i + q] == #[trigger] pat@[q]),
            decreases m - j,
        {
            if v[i + j] != pat[j] {
                all = false;
            }
            j = j + 1;
        }
        if all {
            proof {
                assert(substr_at(v@, i as int, pat@));
            }
            return true;
        }
        proof {
            assert(!substr_at(v@, i as int, pat@));
        }
        i = i + 1;
    }
    proof {
        assert forall|q: int| !substr_at(v@, q, pat@) by {
            if 0 <= q < i {
            } else if q >= 0 {
                assert(q + pat@.len() > v@.len());
            }
        }
    }
    false
}

} // verus!

verus! {

// ---------------------------------------------------------------------------
// mbsync statistics
// ---------------------------------------------------------------------------

/// Counters parsed from one mbsync run: new, deleted, and flag-changed
/// messages.
pub struct SyncStats {
    /// Messages newly delivered.
    pub new_msgs: usize,
    /// Messages deleted.
    pub deleted: usize,
    /// Messages whose flags changed.
    pub flags: usize,
}

impl SyncStats {
    /// Whether the run changed anything at all.
    pub fn has_activity(&self) -> (r: bool)
        ensures
            r == (self.new_msgs > 0 || self.deleted > 0 || self.flags > 0),
    {
        self.new_msgs > 0 || self.deleted > 0 || self.flags > 0
    }
}

impl Default for SyncStats {
    /// All counters at zero.
    fn default() -> (r: Self)
        ensures
            r.new_msgs == 0 && r.deleted == 0 && r.flags == 0,
    {
        SyncStats { new_msgs: 0, deleted: 0, flags: 0 }
    }
}

/// Addition clamped at the machine maximum.
pub open spec fn sat_add(a: int, b: int) -> int {
    if a + b > usize::MAX {
        usize::MAX as int
    } else {
        a + b
    }
}

/// Adds with clamping at the machine maximum.
fn sat_add_exec(a: usize, b: usize) -> (r: usize)
    ensures
        r == sat_add(a as int, b as int),
{
    if a > usize::MAX - b {
        usize::MAX
    } else {
        a + b
    }
}

/// What one whitespace token adds to the counters: `+N`, `*N` and `-N`
/// tokens carry new, flag and deleted counts; anything else adds nothing.
pub open spec fn token_delta(w: Seq<char>) -> (int, int, int) {
    if w.len() > 0 && w[0] == '+' && parse_ok(token_body(w.skip(1))) {
        (digits_val(token_body(w.skip(1))), 0, 0)
    } else if w.len() > 0 && w[0] == '*' && parse_ok(token_body(w.skip(1))) {
        (0, digits_val(token_body(w.skip(1))), 0)
    } else if w.len() > 0 && w[0] == '-' && parse_ok(token_body(w.skip(1))) {
        (0, 0, digits_val(token_body(w.skip(1))))
    } else {
        (0, 0, 0)
    }
}

/// The counters after folding the tokens in order, clamping each step.
pub open spec fn fold_tokens(acc: (int, int, int), ws: Seq<Seq<char>>) -> (int, int, int)
    decreases ws.len(),
{
    if ws.len() == 0 {
        acc
    } else {
        let d = token_delta(ws[0]);
        fold_tokens((sat_add(acc.0, d.0), sat_add(acc.1, d.1), sat_add(acc.2, d.2)), ws.skip(1))
    }
}

/// The `Far:` marker of an mbsync summary line.
pub open spec fn far_marker() -> Seq<char> {
    seq!['F', 'a', 'r', ':']
}

/// The `Near:` marker of an mbsync summary line.
pub open spec fn near_marker() -> Seq<char> {
    seq!['N', 'e', 'a', 'r', ':']
}

/// Whether a line is an mbsync summary line, carrying counters.
pub open spec fn summary_line(l: Seq<char>) -> bool {
    contains_sub(l, far_marker()) && contains_sub(l, near_marker())
}

/// The counters after folding all summary lines in order.
pub open spec fn fold_lines(acc: (int, int, int), ls: Seq<Seq<char>>) -> (int, int, int)
    decreases ls.len(),
{
    if ls.len() == 0 {
        acc
    } else {
        let acc2 = if summary_line(ls[0]) {
            fold_tokens(acc, words_of(ls[0]))
        } else {
            acc
        };
        fold_lines(acc2, ls.skip(1))
    }
}

/// The statistics parsed from an mbsync run's standard output and error,
/// joined with a newline.
pub open spec fn mbsync_stats_spec(out: Seq<char>, err: Seq<char>) -> (int, int, int) {
    fold_lines((0, 0, 0), lines_spec(out + seq!['\n'] + err))
}

/// Parses mbsync verbose output for sync statistics: on every line holding
/// both `Far:` and `Near:`, tokens `+N`, `*N` and `-N` add to the new, flag
/// and deleted counts.
pub fn parse_mbsync_output(out: &str, err: &str) -> (r: SyncStats)
    ensures
        r.new_msgs == mbsync_stats_spec(out@, err@).0,
        r.flags == mbsync_stats_spec(out@, err@).1,
        r.deleted == mbsync_stats_spec(out@, err@).2,
{
    let mut combined = to_chars(out);
    combined.push('\n');
    let mut tail = to_chars(err);
    combined.append(&mut tail);
    proof {
        assert(combined@ =~= out@ + seq!['\n'] + err@);
    }
    let lines = split_lines(&combined);
    let ghost ls = views_of(lines@);
    let mut far: Vec<char> = Vec::new();
    far.push('F');
    far.push('a');
    far.push('r');
    far.push(':');
    let mut near: Vec<char> = Vec::new();
    near.push('N');
    near.push('e');
    near.push('a');
    near.push('r');
    near.push(':');
    proof {
        assert(far@ =~= far_marker());
        assert(near@ =~= near_marker());
    }
    let n: usize = lines.len();
    let mut stats = SyncStats { new_msgs: 0, deleted: 0, flags: 0 };
    let mut i: usize = 0;
    proof {
        assert(ls.skip(0) =~= ls);
    }
    while i < n
        invariant
            i <= n,
            n == ls.len(),
            ls == views_of(lines@),
            far@ == far_marker(),
            near@ == near_marker(),
            mbsync_stats_spec(out@, err@) == fold_lines(
                (stats.new_msgs as int, stats.flags as int, stats.deleted as int),
                ls.skip(i as int),
            ),
        decreases n - i,
    {
        proof {
            assert(ls.skip(i as int)[0] == ls[i as int]);
            assert(ls.skip(i as int).skip(1) =~= ls.skip(i as int + 1));
            assert(ls[i as int] == lines@[i as int]@);
        }
        let line = &lines[i];
        if contains_exact(line, &far) && contains_exact(line, &near) {
            let tokens = crate::layout::split_words(line);
            let ghost ws = views_of(tokens@);
            let ghost s0 = (stats.new_msgs as int, stats.flags as int, stats.deleted as int);
            let m: usize = tokens.len();
            let mut j: usize = 0;
            proof {
                assert(ws.skip(0) =~= ws);
            }
            while j < m
                invariant
                    j <= m,
                    m == ws.len(),
                    ws == views_of(tokens@),
                    fold_tokens(
                        (stats.new_msgs as int, stats.flags as int, stats.deleted as int),
                        ws.skip(j as int),
                    ) == fold_tokens(s0, ws),
                decreases m - j,
            {
                proof {
                    assert(ws.skip(j as int)[0] == ws[j as int]);
                    assert(ws.skip(j as int).skip(1) =~= ws.skip(j as int + 1));
                    assert(ws[j as int] == tokens@[j as int]@);
                }
                let w = &tokens[j];
                let wn: usize = w.len();
                if wn > 0 && (w[0] == '+' || w[0] == '*' || w[0] == '-') {
                    let body = copy_range(w, 1, wn);
                    proof {
                        assert(body@ =~= w@.skip(1));
                    }
                    match parse_usize_chars(&body) {
                        Some(val) => {
                            if w[0] == '+' {
                                stats.new_msgs = sat_add_exec(stats.new_msgs, val);
                            } else if w[0] == '*' {
                                stats.flags = sat_add_exec(stats.flags, val);
                            } else {
                                stats.deleted = sat_add_exec(stats.deleted, val);
                            }
                        },
                        None => {},
                    }
                }
                j = j + 1;
            }
            proof {
                assert(ws.skip(m as int) =~= Seq::<Seq<char>>::empty());
                assert(fold_tokens(
                    (stats.new_msgs as int, stats.flags as int, stats.deleted as int),
                    Seq::<Seq<char>>::empty(),
                ) == (stats.new_msgs as int, stats.flags as int, stats.deleted as int));
            }
        }
        i = i + 1;
    }
    proof {
        assert(ls.skip(n as int) =~= Seq::<Seq<char>>::empty());
    }
    stats
}

} // verus!

verus! {

// ---------------------------------------------------------------------------
// notmuch search summaries
// ---------------------------------------------------------------------------

/// Index of the last occurrence of `c` in `s`, or -1 when absent.
pub open spec fn rfind_char_spec(s: Seq<char>, c: char) -> int
    decreases s.len(),
{
    if s.len() == 0 {
        -1
    } else if s[s.len() - 1] == c {
        s.len() - 1
    } else {
        rfind_char_spec(s.drop_last(), c)
    }
}

/// Finds the last occurrence of `c` in `v`.
fn rfind_char(v: &Vec<char>, c: char) -> (r: Option<usize>)
    ensures
        match r {
            Some(p) => p < v@.len() && rfind_char_spec(v@, c) == p,
            None => rfind_char_spec(v@, c) == -1,
        },
{
    let n: usize = v.len();
    let mut i: usize = n;
    proof {
        assert(v@.take(n as int) =~= v@);
    }
    while i > 0
        invariant
            i <= n,
            n == v@.len(),
            rfind_char_spec(v@, c) == rfind_char_spec(v@.take(i as int), c),
        decreases i,
    {
        proof {
            let t = v@.take(i as int);
            assert(t[t.len() - 1] == v@[i - 1]);
            assert(t.drop_last() =~= v@.take(i as int - 1));
        }
        if v[i - 1] == c {
            return Some(i - 1);
        }
        i = i - 1;
    }
    proof {
        assert(v@.take(0) =~= Seq::<char>::empty());
    }
    None
}

/// The text after `k` space-splits: what remains after skipping past the
/// first `k` spaces, or nothing when there are fewer.
pub open spec fn rest_after_spaces(s: Seq<char>, k: nat) -> Option<Seq<char>>
    decreases k,
{
    if k == 0 {
        Some(s)
    } else {
        let p = find_char_spec(s, ' ');
        if p < 0 {
            None
        } else {
            rest_after_spaces(s.skip(p + 1), (k - 1) as nat)
        }
    }
}

/// The sender and subject parsed from one notmuch search summary line:
/// after three space-splits, the remainder splits at the first semicolon;
/// the sender is the trimmed text after the last closing bracket, the
/// subject the trimmed text before a trailing parenthesized tag list.
pub open spec fn notmuch_parts(s: Seq<char>) -> Option<(Seq<char>, Seq<char>)> {
    match rest_after_spaces(s, 3) {
        None => None,
        Some(rest) => {
            let sp = find_char_spec(rest, ';');
            if sp < 0 {
                None
            } else {
                let sender_part = rest.take(sp);
                let rb = rfind_char_spec(sender_part, ']');
                let sender_seq = if rb >= 0 {
                    sender_part.skip(rb + 1)
                } else {
                    sender_part
                };
                let subj0 = trim_spec(rest.skip(sp + 1));
                let tb = rfind_char_spec(subj0, '(');
                let subject = if tb >= 0 {
                    trim_spec(subj0.take(tb))
                } else {
                    subj0
                };
                Some((trim_spec(sender_seq), subject))
            }
        },
    }
}

/// One newly arrived message: who sent it and what it is about.
#[derive(Debug)]
pub struct NewMessage {
    /// The sender's display name.
    pub sender: String,
    /// The message subject.
    pub subject: String,
}

/// Parses one notmuch search summary line into sender and subject.
pub fn parse_notmuch_line(line: &str) -> (r: Option<NewMessage>)
    ensures
        r is Some <==> notmuch_parts(line@) is Some,
        r is Some ==> (notmuch_parts(line@)->0).0 == r->0.sender@ && (notmuch_parts(line@)->0).1
            == r->0.subject@,
{
    let v = to_chars(line);
    let n: usize = v.len();
    // three space-splits
    let mut off: usize = 0;
    let mut splits: usize = 0;
    proof {
        assert(v@.skip(0) =~= v@);
    }
    while splits < 3
        invariant
            splits <= 3,
            off <= n,
            n == v@.len(),
            v@ == line@,
            rest_after_spaces(v@, 3) == rest_after_spaces(v@.skip(off as int), (3 - splits) as nat),
        decreases 3 - splits,
    {
        match crate::cleanup::find_from(&v, off, ' ') {
            Some(p) => {
                proof {
                    assert(v@.skip(off as int).skip(p - off + 1) =~= v@.skip(p + 1 as int));
                }
                off = p + 1;
                splits = splits + 1;
            },
            None => {
                proof {
                    assert(rest_after_spaces(v@.skip(off as int), (3 - splits) as nat) is None);
                    assert(notmuch_parts(line@) is None);
                }
                return None;
            },
        }
    }
    let rest = copy_range(&v, off, n);
    proof {
        assert(rest@ =~= v@.skip(off as int));
        assert(rest_after_spaces(v@, 3) == Some(rest@));
    }
    let rn: usize = rest.len();
    let sp: usize = match crate::cleanup::find_from(&rest, 0, ';') {
        Some(p) => p,
        None => {
            proof {
                assert(rest@.skip(0) =~= rest@);
            }
            return None;
        },
    };
    proof {
        assert(rest@.skip(0) =~= rest@);
        assert(find_char_spec(rest@, ';') == sp);
    }
    let sender_part = copy_range(&rest, 0, sp);
    proof {
        assert(sender_part@ =~= rest@.take(sp as int));
    }
    let sender_seq = match rfind_char(&sender_part, ']') {
        Some(rb) => {
            let c = copy_range(&sender_part, rb + 1, sp);
            proof {
                assert(c@ =~= sender_part@.skip(rb + 1));
            }
            c
        },
        None => sender_part,
    };
    let sender_t = trim_chars(&sender_seq);
    let subj_raw = copy_range(&rest, sp + 1, rn);
    proof {
        assert(subj_raw@ =~= rest@.skip(sp + 1));
    }
    let subj0 = trim_chars(&subj_raw);
    let subject_t = match rfind_char(&subj0, '(') {
        Some(tb) => {
            let c = copy_range(&subj0, 0, tb);
            proof {
                assert(c@ =~= subj0@.take(tb as int));
            }
            trim_chars(&c)
        },
        None => subj0,
    };
    Some(NewMessage { sender: string_of(&sender_t), subject: string_of(&subject_t) })
}

/// The sender/subject views of parsed messages.
pub open spec fn pairs_of(ms: Seq<NewMessage>) -> Seq<(Seq<char>, Seq<char>)> {
    ms.map_values(|m: NewMessage| (m.sender@, m.subject@))
}

/// The messages parsed from a notmuch search summary: one per non-blank
/// line that parses, in order.
pub open spec fn messages_spec(ls: Seq<Seq<char>>) -> Seq<(Seq<char>, Seq<char>)>
    decreases ls.len(),
{
    if ls.len() == 0 {
        Seq::empty()
    } else {
        let head: Seq<(Seq<char>, Seq<char>)> = if trim_spec(ls[0]).len() == 0 {
            Seq::empty()
        } else {
            match notmuch_parts(ls[0]) {
                Some(p) => seq![p],
                None => Seq::empty(),
            }
        };
        head + messages_spec(ls.skip(1))
    }
}

/// Parses a notmuch search summary into the new messages it lists.
pub fn parse_new_messages(output: &str) -> (r: Vec<NewMessage>)
    ensures
        pairs_of(r@) == messages_spec(lines_spec(output@)),
{
    let v = to_chars(output);
    let lines = split_lines(&v);
    let ghost ls = views_of(lines@);
    let n: usize = lines.len();
    let mut r: Vec<NewMessage> = Vec::new();
    let mut i: usize = 0;
    proof {
        assert(ls.skip(0) =~= ls);
        assert(pairs_of(r@) =~= Seq::<(Seq<char>, Seq<char>)>::empty());
        assert(pairs_of(r@) + messages_spec(ls) =~= messages_spec(ls));
    }
    while i < n
        invariant
            i <= n,
            n == ls.len(),
            ls == views_of(lines@),
            messages_spec(ls) == pairs_of(r@) + messages_spec(ls.skip(i as int)),
        decreases n - i,
    {
        proof {
            assert(ls.skip(i as int)[0] == ls[i as int]);
            assert(ls.skip(i as int).skip(1) =~= ls.skip(i as int + 1));
            assert(ls[i as int] == lines@[i as int]@);
        }
        let t = trim_chars(&lines[i]);
        if t.len() > 0 {
            let text = string_of(&lines[i]);
            if let Some(msg) = parse_notmuch_line(text.as_str()) {
                r.push(msg);
                proof {
                    assert(pairs_of(r@) =~= pairs_of(r@.drop_last()).push(
                        (r@[r@.len() - 1].sender@, r@[r@.len() - 1].subject@),
                    ));
                    assert(pairs_of(r@) + messages_spec(ls.skip(i as int + 1)) =~= pairs_of(
                        r@.drop_last(),
                    ) + (seq![(r@[r@.len() - 1].sender@, r@[r@.len() - 1].subject@)]
                        + messages_spec(ls.skip(i as int + 1))));
                }
            }
        }
        i = i + 1;
    }
    proof {
        assert(ls.skip(n as int) =~= Seq::<Seq<char>>::empty());
        assert(pairs_of(r@) + messages_spec(Seq::<Seq<char>>::empty()) =~= pairs_of(r@));
    }
    r
}

// ---------------------------------------------------------------------------
// Truncation
// ---------------------------------------------------------------------------

/// The text cut to at most `max` characters, a trailing ellipsis taking the
/// last place when something was cut.
pub open spec fn trunc_spec(s: Seq<char>, max: int) -> Seq<char> {
    if s.len() <= max {
        s
    } else {
        s.take(max - 1).push('\u{2026}')
    }
}

/// Truncates a character vector with a trailing ellipsis.
fn trunc_chars(v: &Vec<char>, max: usize) -> (r: Vec<char>)
    requires
        max >= 1,
    ensures
        r@ == trunc_spec(v@, max as int),
{
    if v.len() <= max {
        copy_range(v, 0, v.len())
    } else {
        let mut r = copy_range(v, 0, max - 1);
        r.push('\u{2026}');
        r
    }
}

/// Truncates a string to at most `max` characters, ending in an ellipsis
/// when something was cut.
pub fn truncate(s: &str, max: usize) -> (r: String)
    requires
        max >= 1 || s@.len() == 0,
    ensures
        r@ == trunc_spec(s@, max as int),
{
    let v = to_chars(s);
    if v.len() == 0 {
        let out: Vec<char> = Vec::new();
        proof {
            assert(out@ =~= trunc_spec(s@, max as int));
        }
        string_of(&out)
    } else {
        let out = trunc_chars(&v, max);
        string_of(&out)
    }
}

} // verus!

verus! {

// ---------------------------------------------------------------------------
// Notification text
// ---------------------------------------------------------------------------

/// The digit character for one decimal digit.
pub open spec fn digit_char(d: int) -> char {
    if d == 0 {
        '0'
    } else if d == 1 {
        '1'
    } else if d == 2 {
        '2'
    } else if d == 3 {
        '3'
    } else if d == 4 {
        '4'
    } else if d == 5 {
        '5'
    } else if d == 6 {
        '6'
    } else if d == 7 {
        '7'
    } else if d == 8 {
        '8'
    } else {
        '9'
    }
}

/// The decimal digits of a number, most significant first.
pub open spec fn decimal_of(n: int) -> Seq<char>
    decreases n,
{
    if n < 10 {
        seq![digit_char(n)]
    } else {
        decimal_of(n / 10).push(digit_char(n % 10))
    }
}

/// One decimal digit as a character.
fn digit_exec(d: usize) -> (r: char)
    requires
        d < 10,
    ensures
        r == digit_char(d as int),
{
    if d == 0 {
        '0'
    } else if d == 1 {
        '1'
    } else if d == 2 {
        '2'
    } else if d == 3 {
        '3'
    } else if d == 4 {
        '4'
    } else if d == 5 {
        '5'
    } else if d == 6 {
        '6'
    } else if d == 7 {
        '7'
    } else if d == 8 {
        '8'
    } else {
        '9'
    }
}

/// The decimal digits of a number.
fn decimal_chars(n: usize) -> (r: Vec<char>)
    ensures
        r@ == decimal_of(n as int),
    decreases n,
{
    if n < 10 {
        let mut r: Vec<char> = Vec::new();
        r.push(digit_exec(n));
        proof {
            assert(r@ =~= seq![digit_char(n as int)]);
        }
        r
    } else {
        let mut r = decimal_chars(n / 10);
        r.push(digit_exec(n % 10));
        r
    }
}

/// The `New mail from ` prefix of a single-message notification title.
pub open spec fn new_mail_prefix() -> Seq<char> {
    seq!['N', 'e', 'w', ' ', 'm', 'a', 'i', 'l', ' ', 'f', 'r', 'o', 'm', ' ']
}

/// The ` new messages` suffix of a multi-message notification title.
pub open spec fn messages_suffix() -> Seq<char> {
    seq![' ', 'n', 'e', 'w', ' ', 'm', 'e', 's', 's', 'a', 'g', 'e', 's']
}

/// One bulleted body line: a bullet, the truncated sender, a colon, and the
/// truncated subject.
pub open spec fn bullet_line(m: NewMessage) -> Seq<char> {
    seq!['\u{2022}', ' '] + trunc_spec(m.sender@, 20) + seq![':', ' '] + trunc_spec(m.subject@, 30)
}

/// The notification title: `New mail from <sender>` for one message, the
/// count and ` new messages` otherwise.
pub open spec fn title_spec(ms: Seq<NewMessage>) -> Seq<char> {
    if ms.len() == 1 {
        new_mail_prefix() + ms[0].sender@
    } else {
        decimal_of(ms.len() as int) + messages_suffix()
    }
}

/// The notification body: the single subject for one message, else one
/// bulleted line per message, five at most, joined with newlines.
pub open spec fn body_spec(ms: Seq<NewMessage>) -> Seq<char> {
    if ms.len() == 1 {
        ms[0].subject@
    } else {
        let shown = if ms.len() > 5 {
            ms.take(5)
        } else {
            ms
        };
        join_spec(shown.map_values(|m: NewMessage| bullet_line(m)))
    }
}

/// Builds the notification title and body for newly arrived messages.
pub fn notification_text(messages: &Vec<NewMessage>) -> (r: (String, String))
    ensures
        r.0@ == title_spec(messages@),
        r.1@ == body_spec(messages@),
{
    let n: usize = messages.len();
    if n == 1 {
        let mut title: Vec<char> = Vec::new();
        title.push('N');
        title.push('e');
        title.push('w');
        title.push(' ');
        title.push('m');
        title.push('a');
        title.push('i');
        title.push('l');
        title.push(' ');
        title.push('f');
        title.push('r');
        title.push('o');
        title.push('m');
        title.push(' ');
        let mut sender = to_chars(messages[0].sender.as_str());
        title.append(&mut sender);
        proof {
            assert(title@ =~= new_mail_prefix() + messages@[0].sender@);
        }
        let subject = to_chars(messages[0].subject.as_str());
        (string_of(&title), string_of(&subject))
    } else {
        let mut title = decimal_chars(n);
        title.push(' ');
        title.push('n');
        title.push('e');
        title.push('w');
        title.push(' ');
        title.push('m');
        title.push('e');
        title.push('s');
        title.push('s');
        title.push('a');
        title.push('g');
        title.push('e');
        title.push('s');
        proof {
            assert(title@ =~= decimal_of(n as int) + messages_suffix());
        }
        let shown: usize = if n > 5 {
            5
        } else {
            n
        };
        let ghost shown_seq = if messages@.len() > 5 {
            messages@.take(5)
        } else {
            messages@
        };
        let mut lines: Vec<Vec<char>> = Vec::new();
        let mut i: usize = 0;
        while i < shown
            invariant
                i <= shown,
                shown == (if n > 5 {
                    5int
                } else {
                    n as int
                }),
                n == messages@.len(),
                shown_seq == (if messages@.len() > 5 {
                    messages@.take(5)
                } else {
                    messages@
                }),
                lines@.len() == i,
                forall|k: int| 0 <= k < i ==> #[trigger] lines@[k]@ == bullet_line(messages@[k]),
            decreases shown - i,
        {
            let mut line: Vec<char> = Vec::new();
            line.push('\u{2022}');
            line.push(' ');
            let svec = to_chars(messages[i].sender.as_str());
            let mut st = trunc_chars(&svec, 20);
            line.append(&mut st);
            line.push(':');
            line.push(' ');
            let jvec = to_chars(messages[i].subject.as_str());
            let mut jt = trunc_chars(&jvec, 30);
            line.append(&mut jt);
            proof {
                assert(line@ =~= bullet_line(messages@[i as int]));
            }
            lines.push(line);
            i = i + 1;
        }
        proof {
            assert forall|k: int|
                0 <= k < shown implies #[trigger] views_of(lines@)[k] == shown_seq.map_values(
                |m: NewMessage| bullet_line(m),
            )[k] by {
                assert(views_of(lines@)[k] == lines@[k]@);
                assert(shown_seq[k] == messages@[k]);
            }
            assert(views_of(lines@) =~= shown_seq.map_values(|m: NewMessage| bullet_line(m)));
        }
        let body = crate::text::join_lines(&lines);
        (string_of(&title), string_of(&body))
    }
}

// ---------------------------------------------------------------------------
// Channel lists
// ---------------------------------------------------------------------------

/// The `Channel ` prefix of an mbsync configuration line.
pub open spec fn channel_prefix() -> Seq<char> {
    seq!['C', 'h', 'a', 'n', 'n', 'e', 'l', ' ']
}

/// The `-inbox` suffix naming a quick-sync channel.
pub open spec fn inbox_suffix() -> Seq<char> {
    seq!['-', 'i', 'n', 'b', 'o', 'x']
}

/// Whether `s` starts with `p`.
pub open spec fn has_prefix(s: Seq<char>, p: Seq<char>) -> bool {
    p.len() <= s.len() && s.take(p.len() as int) == p
}

/// Whether `s` ends with `p`.
pub open spec fn has_suffix(s: Seq<char>, p: Seq<char>) -> bool {
    p.len() <= s.len() && s.skip(s.len() - p.len()) == p
}

/// The channel names of the configuration lines: each `Channel ` line's
/// trimmed remainder; quick mode keeps only `-inbox` channels, full mode
/// everything else.
pub open spec fn channels_spec(ls: Seq<Seq<char>>, quick: bool) -> Seq<Seq<char>>
    decreases ls.len(),
{
    if ls.len() == 0 {
        Seq::empty()
    } else {
        let head: Seq<Seq<char>> = if has_prefix(ls[0], channel_prefix()) {
            let name = trim_spec(ls[0].skip(channel_prefix().len() as int));
            if quick == has_suffix(name, inbox_suffix()) {
                seq![name]
            } else {
                Seq::empty()
            }
        } else {
            Seq::empty()
        };
        head + channels_spec(ls.skip(1), quick)
    }
}

/// The channels to sync: the parsed list, or `-a` (all) when none matched.
pub open spec fn channel_list_spec(s: Seq<char>, quick: bool) -> Seq<Seq<char>> {
    let cs = channels_spec(lines_spec(s), quick);
    if cs.len() == 0 {
        seq![seq!['-', 'a']]
    } else {
        cs
    }
}

/// The views of a sequence of strings.
pub open spec fn string_views(r: Seq<String>) -> Seq<Seq<char>> {
    r.map_values(|x: String| x@)
}

/// Whether this line names a channel, and the channel name.
fn channel_of_line(line: &Vec<char>) -> (r: Option<Vec<char>>)
    ensures
        match r {
            Some(name) => has_prefix(line@, channel_prefix()) && name@ == trim_spec(
                line@.skip(channel_prefix().len() as int),
            ),
            None => !has_prefix(line@, channel_prefix()),
        },
{
    let n: usize = line.len();
    if n >= 8 && line[0] == 'C' && line[1] == 'h' && line[2] == 'a' && line[3] == 'n' && line[4]
        == 'n' && line[5] == 'e' && line[6] == 'l' && line[7] == ' ' {
        proof {
            assert(line@.take(8) =~= channel_prefix());
        }
        let restv = copy_range(line, 8, n);
        proof {
            assert(restv@ =~= line@.skip(8));
        }
        Some(trim_chars(&restv))
    } else {
        proof {
            if line@.len() >= 8 {
                assert(line@.take(8)[0] == line@[0]);
                assert(line@.take(8)[1] == line@[1]);
                assert(line@.take(8)[2] == line@[2]);
                assert(line@.take(8)[3] == line@[3]);
                assert(line@.take(8)[4] == line@[4]);
                assert(line@.take(8)[5] == line@[5]);
                assert(line@.take(8)[6] == line@[6]);
                assert(line@.take(8)[7] == line@[7]);
            }
        }
        None
    }
}

/// Whether the channel name ends in `-inbox`.
fn is_inbox_channel(name: &Vec<char>) -> (r: bool)
    ensures
        r == has_suffix(name@, inbox_suffix()),
{
    let n: usize = name.len();
    if n < 6 {
        return false;
    }
    let r = name[n - 6] == '-' && name[n - 5] == 'i' && name[n - 4] == 'n' && name[n - 3] == 'b'
        && name[n - 2] == 'o' && name[n - 1] == 'x';
    proof {
        let tail = name@.skip(n - 6);
        assert(tail.len() == 6);
        assert(tail[0] == name@[n - 6]);
        assert(tail[1] == name@[n - 5]);
        assert(tail[2] == name@[n - 4]);
        assert(tail[3] == name@[n - 3]);
        assert(tail[4] == name@[n - 2]);
        assert(tail[5] == name@[n - 1]);
        if r {
            assert(tail =~= inbox_suffix());
        } else {
            assert(tail != inbox_suffix());
        }
    }
    r
}

/// Parses an mbsync configuration for the channels to sync: quick mode keeps
/// the `-inbox` channels, full mode the others; with none found, `-a`.
pub fn parse_channel_list(content: &str, quick: bool) -> (r: Vec<String>)
    ensures
        string_views(r@) == channel_list_spec(content@, quick),
{
    let v = to_chars(content);
    let lines = split_lines(&v);
    let ghost ls = views_of(lines@);
    let n: usize = lines.len();
    let mut r: Vec<String> = Vec::new();
    let mut i: usize = 0;
    proof {
        assert(ls.skip(0) =~= ls);
        assert(string_views(r@) =~= Seq::<Seq<char>>::empty());
        assert(string_views(r@) + channels_spec(ls, quick) =~= channels_spec(ls, quick));
    }
    while i < n
        invariant
            i <= n,
            n == ls.len(),
            ls == views_of(lines@),
            channels_spec(ls, quick) == string_views(r@) + channels_spec(
                ls.skip(i as int),
                quick,
            ),
        decreases n - i,
    {
        proof {
            assert(ls.skip(i as int)[0] == ls[i as int]);
            assert(ls.skip(i as int).skip(1) =~= ls.skip(i as int + 1));
            assert(ls[i as int] == lines@[i as int]@);
        }
        if let Some(name) = channel_of_line(&lines[i]) {
            let keep = if quick {
                is_inbox_channel(&name)
            } else {
                !is_inbox_channel(&name)
            };
            if keep {
                let text = string_of(&name);
                r.push(text);
                proof {
                    assert(string_views(r@) =~= string_views(r@.drop_last()).push(name@));
                    assert(string_views(r@) + channels_spec(ls.skip(i as int + 1), quick)
                        =~= string_views(r@.drop_last()) + (seq![name@] + channels_spec(
                        ls.skip(i as int + 1),
                        quick,
                    )));
                }
            }
        }
        i = i + 1;
    }
    proof {
        assert(ls.skip(n as int) =~= Seq::<Seq<char>>::empty());
        assert(string_views(r@) + channels_spec(Seq::<Seq<char>>::empty(), quick) =~= string_views(
            r@,
        ));
    }
    if r.len() == 0 {
        let mut fallback: Vec<char> = Vec::new();
        fallback.push('-');
        fallback.push('a');
        proof {
            assert(fallback@ =~= seq!['-', 'a']);
        }
        let mut out: Vec<String> = Vec::new();
        out.push(string_of(&fallback));
        proof {
            assert(string_views(out@) =~= seq![seq!['-', 'a']]);
        }
        out
    } else {
        r
    }
}

} // verus!
