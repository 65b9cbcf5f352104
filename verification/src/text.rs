//! Character-level text utilities shared by the cleanup and layout passes.

use vstd::prelude::*;
use vstd::string::StrSliceExecFns;

verus! {

/// Characters treated as whitespace by the cleanup passes: the Unicode
/// White_Space set (tab through carriage return, space, next line, no-break
/// space, ogham space mark, the en-quad..hair-space range, the line and
/// paragraph separators, narrow no-break space, medium mathematical space,
/// and the ideographic space).
pub open spec fn is_space(c: char) -> bool {
    let u = c as u32;
    (9 <= u && u <= 13) || u == 32 || u == 0x85 || u == 0xA0 || u == 0x1680 || (0x2000 <= u && u
        <= 0x200A) || u == 0x2028 || u == 0x2029 || u == 0x202F || u == 0x205F || u == 0x3000
}

/// Executable mirror of `is_space`.
pub fn space_char(c: char) -> (r: bool)
    ensures
        r == is_space(c),
{
    let u: u32 = c as u32;
    (9 <= u && u <= 13) || u == 32 || u == 0x85 || u == 0xA0 || u == 0x1680 || (0x2000 <= u && u
        <= 0x200A) || u == 0x2028 || u == 0x2029 || u == 0x202F || u == 0x205F || u == 0x3000
}

/// The characters of a string slice, in order.
pub fn to_chars(s: &str) -> (v: Vec<char>)
    ensures
        v@ == s@,
{
    let n: usize = s.unicode_len();
    let mut v: Vec<char> = Vec::new();
    let mut i: usize = 0;
    proof {
        assert(v@ =~= s@.take(0));
    }
    while i < n
        invariant
            n == s@.len(),
            i <= n,
            v@ == s@.take(i as int),
        decreases n - i,
    {
        let c = s.get_char(i);
        v.push(c);
        i = i + 1;
        proof {
            assert(v@ =~= s@.take(i as int));
        }
    }
    proof {
        assert(v@ =~= s@);
    }
    v
}

/// Relies on `String::push`: appends exactly one character at the end.
#[verifier::external_body]
fn push_char(s: &mut String, c: char)
    ensures
        final(s)@ == old(s)@.push(c),
{
    s.push(c)
}

/// A `String` holding exactly the given characters.
pub fn string_of(v: &Vec<char>) -> (s: String)
    ensures
        s@ == v@,
{
    let mut s = String::new();
    let mut i: usize = 0;
    proof {
        assert(s@ =~= v@.take(0));
    }
    while i < v.len()
        invariant
            i <= v.len(),
            s@ == v@.take(i as int),
        decreases v.len() - i,
    {
        push_char(&mut s, v[i]);
        i = i + 1;
        proof {
            assert(s@ =~= v@.take(i as int));
        }
    }
    proof {
        assert(s@ =~= v@);
    }
    s
}

/// The characters of `v` from `a` (inclusive) to `b` (exclusive).
pub fn copy_range(v: &Vec<char>, a: usize, b: usize) -> (r: Vec<char>)
    requires
        a <= b <= v@.len(),
    ensures
        r@ == v@.subrange(a as int, b as int),
{
    let mut r: Vec<char> = Vec::new();
    let mut i: usize = a;
    proof {
        assert(r@ =~= v@.subrange(a as int, a as int));
    }
    while i < b
        invariant
            a <= i <= b <= v@.len(),
            r@ == v@.subrange(a as int, i as int),
        decreases b - i,
    {
        r.push(v[i]);
        i = i + 1;
        proof {
            assert(r@ =~= v@.subrange(a as int, i as int));
        }
    }
    r
}

/// The string with leading whitespace removed.
pub open spec fn trim_start_spec(s: Seq<char>) -> Seq<char>
    decreases s.len(),
{
    if s.len() > 0 && is_space(s[0]) {
        trim_start_spec(s.skip(1))
    } else {
        s
    }
}

/// The string with trailing whitespace removed.
pub open spec fn trim_end_spec(s: Seq<char>) -> Seq<char>
    decreases s.len(),
{
    if s.len() > 0 && is_space(s[s.len() - 1]) {
        trim_end_spec(s.take(s.len() - 1))
    } else {
        s
    }
}

/// The string with leading and trailing whitespace removed.
pub open spec fn trim_spec(s: Seq<char>) -> Seq<char> {
    trim_end_spec(trim_start_spec(s))
}

/// The characters of `v` with leading and trailing whitespace removed.
pub fn trim_chars(v: &Vec<char>) -> (r: Vec<char>)
    ensures
        r@ == trim_spec(v@),
{
    let n: usize = v.len();
    let mut a: usize = 0;
    proof {
        assert(v@.skip(0) =~= v@);
    }
    while a < n && space_char(v[a])
        invariant
            a <= n,
            n == v@.len(),
            trim_start_spec(v@) == trim_start_spec(v@.skip(a as int)),
        decreases n - a,
    {
        proof {
            assert(v@.skip(a as int)[0] == v@[a as int]);
            assert(v@.skip(a as int).skip(1) =~= v@.skip(a as int + 1));
        }
        a = a + 1;
    }
    proof {
        if a < n {
            assert(v@.skip(a as int)[0] == v@[a as int]);
        }
        assert(trim_start_spec(v@.skip(a as int)) == v@.skip(a as int));
    }
    // now trim_start_spec(v@) == v@.skip(a)
    let mut b: usize = n;
    while b > a && space_char(v[b - 1])
        invariant
            a <= b <= n,
            n == v@.len(),
            trim_start_spec(v@) == v@.skip(a as int),
            trim_end_spec(v@.skip(a as int)) == trim_end_spec(
                v@.subrange(a as int, b as int),
            ),
        decreases b,
    {
        proof {
            let t = v@.subrange(a as int, b as int);
            assert(t[t.len() - 1] == v@[b - 1]);
            assert(t.take(t.len() - 1) =~= v@.subrange(a as int, b as int - 1));
        }
        b = b - 1;
    }
    proof {
        let t = v@.subrange(a as int, b as int);
        if b > a {
            assert(t[t.len() - 1] == v@[b - 1]);
        }
        assert(trim_end_spec(t) == t);
        assert(v@.skip(a as int) =~= v@.subrange(a as int, n as int));
    }
    copy_range(v, a, b)
}

/// The lines of `s`, splitting at each newline: the text before the first
/// newline, then the lines of the rest. A text without newlines is one line.
pub open spec fn lines_acc(cur: Seq<char>, s: Seq<char>) -> Seq<Seq<char>>
    decreases s.len(),
{
    if s.len() == 0 {
        seq![cur]
    } else if s[0] == '\n' {
        seq![cur] + lines_acc(Seq::empty(), s.skip(1))
    } else {
        lines_acc(cur.push(s[0]), s.skip(1))
    }
}

/// The lines of a text, split at newline characters.
pub open spec fn lines_spec(s: Seq<char>) -> Seq<Seq<char>> {
    lines_acc(Seq::empty(), s)
}

/// The views of a sequence of character vectors.
pub open spec fn views_of(r: Seq<Vec<char>>) -> Seq<Seq<char>> {
    r.map_values(|x: Vec<char>| x@)
}

/// Splits a text into its lines.
pub fn split_lines(v: &Vec<char>) -> (r: Vec<Vec<char>>)
    ensures
        views_of(r@) == lines_spec(v@),
        r@.len() >= 1,
        forall|k: int| 0 <= k < r@.len() ==> #[trigger] r@[k]@.len() <= v@.len(),
{
    let n: usize = v.len();
    let mut r: Vec<Vec<char>> = Vec::new();
    let mut cur: Vec<char> = Vec::new();
    let mut i: usize = 0;
    proof {
        assert(v@.skip(0) =~= v@);
        assert(views_of(r@) =~= Seq::<Seq<char>>::empty());
        assert(views_of(r@) + lines_acc(cur@, v@) =~= lines_acc(cur@, v@));
    }
    while i < n
        invariant
            i <= n,
            n == v@.len(),
            cur@.len() <= i,
            forall|k: int| 0 <= k < r@.len() ==> #[trigger] r@[k]@.len() <= v@.len(),
            lines_spec(v@) == views_of(r@) + lines_acc(cur@, v@.skip(i as int)),
        decreases n - i,
    {
        proof {
            assert(v@.skip(i as int)[0] == v@[i as int]);
            assert(v@.skip(i as int).skip(1) =~= v@.skip(i as int + 1));
        }
        let c = v[i];
        if c == '\n' {
            let done = cur;
            cur = Vec::new();
            r.push(done);
            proof {
                assert(views_of(r@) =~= views_of(r@.take(r@.len() - 1)).push(done@));
                assert(views_of(r@.take(r@.len() - 1)) =~= views_of(r@.drop_last()));
                assert(r@.drop_last() =~= r@.take(r@.len() - 1));
                assert(views_of(r@) + lines_acc(Seq::empty(), v@.skip(i as int + 1)) =~= (
                views_of(r@.drop_last()) + (seq![done@] + lines_acc(
                    Seq::empty(),
                    v@.skip(i as int + 1),
                ))));
            }
        }
        if c != '\n' {
            cur.push(c);
        }
        i = i + 1;
    }
    proof {
        assert(v@.skip(n as int) =~= Seq::<char>::empty());
        assert(lines_acc(cur@, Seq::<char>::empty()) == seq![cur@]);
    }
    r.push(cur);
    proof {
        assert(views_of(r@) =~= views_of(r@.drop_last()) + seq![r@[r@.len() - 1]@]);
        assert(r@.drop_last() =~= r@.take(r@.len() - 1));
        assert(views_of(r@) =~= lines_spec(v@));
    }
    r
}

/// The text that joins the given lines with single newlines.
pub open spec fn join_spec(ls: Seq<Seq<char>>) -> Seq<char>
    decreases ls.len(),
{
    if ls.len() == 0 {
        Seq::empty()
    } else if ls.len() == 1 {
        ls[0]
    } else {
        ls[0].push('\n') + join_spec(ls.skip(1))
    }
}

/// Joins lines with single newlines.
pub fn join_lines(ls: &Vec<Vec<char>>) -> (r: Vec<char>)
    ensures
        r@ == join_spec(views_of(ls@)),
{
    let n: usize = ls.len();
    let mut r: Vec<char> = Vec::new();
    let mut i: usize = 0;
    proof {
        assert(ls@.skip(0) =~= ls@);
        assert(r@ + join_spec(views_of(ls@)) =~= join_spec(views_of(ls@)));
    }
    while i < n
        invariant
            i <= n,
            n == ls@.len(),
            join_spec(views_of(ls@)) == r@ + join_spec(views_of(ls@.skip(i as int))),
        decreases n - i,
    {
        proof {
            assert(views_of(ls@.skip(i as int)).len() == n - i);
            assert(views_of(ls@.skip(i as int))[0] == ls@[i as int]@);
            assert(views_of(ls@.skip(i as int)).skip(1) =~= views_of(ls@.skip(i as int + 1)));
        }
        let ghost r0 = r@;
        let line = &ls[i];
        let m: usize = line.len();
        let mut j: usize = 0;
        while j < m
            invariant
                j <= m,
                m == line@.len(),
                r@ == r0 + line@.take(j as int),
            decreases m - j,
        {
            r.push(line[j]);
            j = j + 1;
            proof {
                assert(r@ =~= r0 + line@.take(j as int));
            }
        }
        proof {
            assert(r0 + line@.take(m as int) =~= r0 + line@);
        }
        if i + 1 < n {
            r.push('\n');
            proof {
                assert(r@ =~= r0 + line@.push('\n'));
                assert(r@ + join_spec(views_of(ls@.skip(i as int + 1))) =~= r0 + (line@.push(
                    '\n',
                ) + join_spec(views_of(ls@.skip(i as int + 1)))));
            }
        } else {
            proof {
                assert(views_of(ls@.skip(i as int)).len() == 1);
                assert(r@ + join_spec(views_of(ls@.skip(i as int + 1))) =~= r@);
            }
        }
        i = i + 1;
    }
    proof {
        assert(views_of(ls@.skip(n as int)) =~= Seq::<Seq<char>>::empty());
    }
    r
}

} // verus!
