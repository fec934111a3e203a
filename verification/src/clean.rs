//! Transcript preprocessing.
//!
//! Subtitle text arrives as dialogue lines interleaved with pure-timestamp
//! lines, stray blank lines, carriage returns, and runs of repeated lines.
//! Cleaning is a deterministic pure transform: split into lines, trim each
//! line, drop blank lines, pure-timestamp lines and duplicates of the line
//! kept just before, and join what is left with single newlines.

use vstd::prelude::*;
use crate::text::{chars_of, string_of};

verus! {

/// Horizontal whitespace trimmed from line ends; trimming `\r` is what
/// normalizes carriage-return line endings.
pub open spec fn is_blank_char(c: char) -> bool {
    c == ' ' || c == '\t' || c == '\r'
}

/// Executable twin of `is_blank_char`.
pub fn blank_char(c: char) -> (r: bool)
    ensures
        r == is_blank_char(c),
{
    c == ' ' || c == '\t' || c == '\r'
}

/// The characters a pure-timestamp line is made of: digits, the separators
/// of a subtitle time range, and blanks.
pub open spec fn is_timestamp_char(c: char) -> bool {
    ('0' <= c && c <= '9') || c == ':' || c == ',' || c == '-' || c == '>' || is_blank_char(c)
}

/// Executable twin of `is_timestamp_char`.
pub fn timestamp_char(c: char) -> (r: bool)
    ensures
        r == is_timestamp_char(c),
{
    ('0' <= c && c <= '9') || c == ':' || c == ',' || c == '-' || c == '>' || blank_char(c)
}

/// A nonempty line consisting only of timestamp characters.
pub open spec fn is_timestamp_line(l: Seq<char>) -> bool {
    l.len() > 0 && forall|i: int| 0 <= i < l.len() ==> is_timestamp_char(#[trigger] l[i])
}

/// The lines of `s`, split at every newline; a trailing newline closes the
/// last line rather than opening an empty one.
pub open spec fn split_lines(s: Seq<char>) -> Seq<Seq<char>>
    decreases s.len(),
{
    if s.len() == 0 {
        Seq::empty()
    } else if s[0] == '\n' {
        seq![Seq::<char>::empty()] + split_lines(s.drop_first())
    } else {
        let rest = split_lines(s.drop_first());
        if rest.len() == 0 {
            seq![seq![s[0]]]
        } else {
            seq![seq![s[0]] + rest[0]] + rest.drop_first()
        }
    }
}

/// `l` without its leading blanks.
pub open spec fn trim_front(l: Seq<char>) -> Seq<char>
    decreases l.len(),
{
    if l.len() > 0 && is_blank_char(l[0]) {
        trim_front(l.drop_first())
    } else {
        l
    }
}

/// `l` without its trailing blanks.
pub open spec fn trim_back(l: Seq<char>) -> Seq<char>
    decreases l.len(),
{
    if l.len() > 0 && is_blank_char(l[l.len() - 1]) {
        trim_back(l.drop_last())
    } else {
        l
    }
}

/// `l` without leading and trailing blanks.
pub open spec fn spec_trim(l: Seq<char>) -> Seq<char> {
    trim_back(trim_front(l))
}

/// The lines kept after cleaning: each line trimmed, then dropped when
/// blank, when pure timestamp, or when equal to the line kept just before
/// it (`prev`).
pub open spec fn clean_lines(lines: Seq<Seq<char>>, prev: Option<Seq<char>>) -> Seq<Seq<char>>
    decreases lines.len(),
{
    if lines.len() == 0 {
        Seq::empty()
    } else {
        let t = spec_trim(lines[0]);
        if t.len() == 0 || is_timestamp_line(t) || prev == Some(t) {
            clean_lines(lines.drop_first(), prev)
        } else {
            seq![t] + clean_lines(lines.drop_first(), Some(t))
        }
    }
}

/// The kept lines joined back with single newlines, no trailing newline.
pub open spec fn join_lines(ls: Seq<Seq<char>>) -> Seq<char>
    decreases ls.len(),
{
    if ls.len() == 0 {
        Seq::empty()
    } else if ls.len() == 1 {
        ls[0]
    } else {
        ls[0] + seq!['\n'] + join_lines(ls.drop_first())
    }
}

/// The whole cleaning transform.
pub open spec fn spec_clean(s: Seq<char>) -> Seq<char> {
    join_lines(clean_lines(split_lines(s), None))
}

/// A run without newlines is one line.
proof fn lemma_split_lines_no_newline(x: Seq<char>)
    requires
        x.len() > 0,
        forall|i: int| 0 <= i < x.len() ==> x[i] != '\n',
    ensures
        split_lines(x) == seq![x],
    decreases x.len(),
{
    if x.len() > 1 {
        assert(x[0] != '\n');
        assert(forall|i: int| 0 <= i < x.drop_first().len() ==> x.drop_first()[i] != '\n');
        lemma_split_lines_no_newline(x.drop_first());
        let rest = split_lines(x.drop_first());
        assert(rest == seq![x.drop_first()]);
        assert(rest.len() == 1);
        assert(rest[0] == x.drop_first());
        assert(seq![x[0]] + x.drop_first() =~= x);
        assert(rest.drop_first() =~= Seq::<Seq<char>>::empty());
        assert(split_lines(x) == seq![seq![x[0]] + rest[0]] + rest.drop_first());
        assert(seq![seq![x[0]] + rest[0]] + rest.drop_first() =~~= seq![x]);
    } else {
        assert(x.drop_first().len() == 0);
        assert(split_lines(x.drop_first()) == Seq::<Seq<char>>::empty());
        assert(split_lines(x) == seq![seq![x[0]]]);
        assert(seq![seq![x[0]]] =~~= seq![x]) by {
            assert(seq![x[0]] =~= x);
        }
    }
}

/// Splitting at the first newline peels off one line.
proof fn lemma_split_lines_step(x: Seq<char>, r: Seq<char>)
    requires
        forall|i: int| 0 <= i < x.len() ==> x[i] != '\n',
    ensures
        split_lines(x + seq!['\n'] + r) == seq![x] + split_lines(r),
    decreases x.len(),
{
    let s = x + seq!['\n'] + r;
    assert(s.len() == x.len() + 1 + r.len());
    if x.len() == 0 {
        assert(s =~= seq!['\n'] + r);
        assert(s[0] == '\n');
        assert(s.drop_first() =~= r);
        assert(seq![Seq::<char>::empty()] + split_lines(r) =~~= seq![x] + split_lines(r));
    } else {
        assert(s[0] == x[0]);
        assert(s[0] != '\n');
        assert(s.drop_first() =~= x.drop_first() + seq!['\n'] + r);
        lemma_split_lines_step(x.drop_first(), r);
        let rest = split_lines(s.drop_first());
        assert(rest == seq![x.drop_first()] + split_lines(r));
        assert(rest.len() > 0);
        assert(rest[0] == x.drop_first());
        assert(seq![s[0]] + rest[0] =~= x);
        assert(rest.drop_first() =~= split_lines(r));
    }
}

/// Whether two character vectors hold the same characters.
pub fn chars_eq(a: &Vec<char>, b: &Vec<char>) -> (r: bool)
    ensures
        r == (a@ == b@),
{
    if a.len() != b.len() {
        return false;
    }
    let mut i: usize = 0;
    while i < a.len()
        invariant
            i <= a@.len(),
            a@.len() == b@.len(),
            forall|j: int| 0 <= j < i ==> a@[j] == b@[j],
        decreases a@.len() - i,
    {
        if a[i] != b[i] {
            return false;
        }
        i = i + 1;
    }
    proof {
        assert(a@ =~= b@);
    }
    true
}

/// The line without its leading and trailing blanks.
pub fn trim_chars(l: &Vec<char>) -> (t: Vec<char>)
    ensures
        t@ == spec_trim(l@),
{
    let n = l.len();
    proof {
        assert(l@.skip(0) =~= l@);
    }
    let mut a: usize = 0;
    while a < n
        invariant_except_break
            a <= n,
            n == l@.len(),
            trim_front(l@) == trim_front(l@.skip(a as int)),
        ensures
            a <= n,
            n == l@.len(),
            trim_front(l@) == trim_front(l@.skip(a as int)),
            a == n || !is_blank_char(l@[a as int]),
        decreases n - a,
    {
        if !blank_char(l[a]) {
            break;
        }
        proof {
            assert(l@.skip(a as int).drop_first() =~= l@.skip(a + 1));
        }
        a = a + 1;
    }
    proof {
        assert(l@.skip(a as int) =~= l@.subrange(a as int, n as int));
        assert(trim_front(l@) == l@.subrange(a as int, n as int));
        assert(spec_trim(l@) == trim_back(l@.subrange(a as int, n as int)));
    }
    let mut b: usize = n;
    while b > a
        invariant_except_break
            a <= b <= n,
            n == l@.len(),
            spec_trim(l@) == trim_back(l@.subrange(a as int, b as int)),
        ensures
            a <= b <= n,
            n == l@.len(),
            spec_trim(l@) == trim_back(l@.subrange(a as int, b as int)),
            b == a || !is_blank_char(l@[b - 1]),
        decreases b,
    {
        if !blank_char(l[b - 1]) {
            break;
        }
        proof {
            let sub = l@.subrange(a as int, b as int);
            assert(sub.last() == l@[b - 1]);
            assert(sub.drop_last() =~= l@.subrange(a as int, b - 1));
        }
        b = b - 1;
    }
    proof {
        assert(spec_trim(l@) == l@.subrange(a as int, b as int));
    }
    let mut t: Vec<char> = Vec::new();
    let mut i: usize = a;
    while i < b
        invariant
            a <= i <= b <= n,
            n == l@.len(),
            t@ == l@.subrange(a as int, i as int),
        decreases b - i,
    {
        t.push(l[i]);
        proof {
            assert(l@.subrange(a as int, i as int).push(l@[i as int]) =~= l@.subrange(
                a as int,
                i + 1,
            ));
        }
        i = i + 1;
    }
    t
}

/// Whether the line consists only of timestamp characters (and is not
/// empty).
pub fn timestamp_line(l: &Vec<char>) -> (r: bool)
    ensures
        r == is_timestamp_line(l@),
{
    if l.len() == 0 {
        return false;
    }
    let mut i: usize = 0;
    while i < l.len()
        invariant
            i <= l@.len(),
            l@.len() > 0,
            forall|j: int| 0 <= j < i ==> is_timestamp_char(#[trigger] l@[j]),
        decreases l@.len() - i,
    {
        if !timestamp_char(l[i]) {
            return false;
        }
        i = i + 1;
    }
    true
}

/// The lines of the transcript, as character vectors.
pub fn split_chars(v: &Vec<char>) -> (lines: Vec<Vec<char>>)
    ensures
        lines.deep_view() == split_lines(v@),
{
    let n = v.len();
    let mut lines: Vec<Vec<char>> = Vec::new();
    let mut cur: Vec<char> = Vec::new();
    let mut i: usize = 0;
    proof {
        assert(cur@ + v@.skip(0) =~= v@);
        assert(lines.deep_view() =~= Seq::<Seq<char>>::empty());
    }
    while i < n
        invariant
            i <= n,
            n == v@.len(),
            forall|j: int| 0 <= j < cur@.len() ==> cur@[j] != '\n',
            split_lines(v@) == lines.deep_view() + split_lines(cur@ + v@.skip(i as int)),
        decreases n - i,
    {
        let c = v[i];
        let ghost tail = v@.skip(i as int);
        proof {
            assert(tail[0] == v@[i as int]);
            assert(tail.drop_first() =~= v@.skip(i + 1));
        }
        if c == '\n' {
            proof {
                assert(cur@ + tail =~= cur@ + seq!['\n'] + v@.skip(i + 1));
                lemma_split_lines_step(cur@, v@.skip(i + 1));
            }
            let ghost old_lines = lines.deep_view();
            lines.push(cur);
            cur = Vec::new();
            proof {
                assert(lines.deep_view() =~~= old_lines.push(lines@.last()@));
                assert(old_lines + (seq![lines@.last()@] + split_lines(cur@ + v@.skip(i + 1)))
                    =~= lines.deep_view() + split_lines(cur@ + v@.skip(i + 1)));
            }
        } else {
            proof {
                assert(cur@.push(c) + v@.skip(i + 1) =~= cur@ + tail);
            }
            cur.push(c);
        }
        i = i + 1;
    }
    proof {
        assert(cur@ + v@.skip(n as int) =~= cur@);
    }
    if cur.len() > 0 {
        proof {
            lemma_split_lines_no_newline(cur@);
        }
        let ghost old_lines = lines.deep_view();
        lines.push(cur);
        proof {
            assert(lines.deep_view() =~~= old_lines.push(lines@.last()@));
            assert(old_lines + seq![lines@.last()@] =~= lines.deep_view());
        }
    } else {
        proof {
            assert(lines.deep_view() + Seq::<Seq<char>>::empty() =~= lines.deep_view());
        }
    }
    lines
}

/// The cleaned lines: trimmed, with blank lines, timestamp lines and
/// immediate repeats dropped.
pub fn filter_lines(lines: &Vec<Vec<char>>) -> (kept: Vec<Vec<char>>)
    ensures
        kept.deep_view() == clean_lines(lines.deep_view(), None),
{
    let mut kept: Vec<Vec<char>> = Vec::new();
    let ghost mut prev: Option<Seq<char>> = None;
    let mut i: usize = 0;
    proof {
        assert(lines.deep_view().skip(0) =~= lines.deep_view());
        assert(kept.deep_view() =~= Seq::<Seq<char>>::empty());
    }
    while i < lines.len()
        invariant
            i <= lines@.len(),
            lines.deep_view().len() == lines@.len(),
            kept@.len() > 0 ==> prev == Some(kept@.last()@),
            kept@.len() == 0 ==> prev is None,
            clean_lines(lines.deep_view(), None) == kept.deep_view() + clean_lines(
                lines.deep_view().skip(i as int),
                prev,
            ),
        decreases lines@.len() - i,
    {
        let ghost rest = lines.deep_view().skip(i as int);
        proof {
            assert(rest[0] == lines.deep_view()[i as int]);
            assert(lines.deep_view()[i as int] == lines@[i as int]@);
            assert(rest.drop_first() =~= lines.deep_view().skip(i + 1));
        }
        let t = trim_chars(&lines[i]);
        let drop_it: bool;
        if t.len() == 0 {
            drop_it = true;
        } else if timestamp_line(&t) {
            drop_it = true;
        } else if kept.len() > 0 && chars_eq(&kept[kept.len() - 1], &t) {
            proof {
                assert(kept@.last()@ == kept@[kept@.len() - 1]@);
            }
            drop_it = true;
        } else {
            drop_it = false;
        }
        if !drop_it {
            let ghost old_kept = kept.deep_view();
            kept.push(t);
            proof {
                assert(kept.deep_view() =~~= old_kept.push(kept@.last()@));
                assert(old_kept + (seq![kept@.last()@] + clean_lines(
                    lines.deep_view().skip(i + 1),
                    Some(kept@.last()@),
                )) =~= kept.deep_view() + clean_lines(
                    lines.deep_view().skip(i + 1),
                    Some(kept@.last()@),
                ));
                prev = Some(kept@.last()@);
            }
        }
        i = i + 1;
    }
    proof {
        assert(lines.deep_view().skip(lines.deep_view().len() as int)
            =~= Seq::<Seq<char>>::empty());
        assert(kept.deep_view() + Seq::<Seq<char>>::empty() =~= kept.deep_view());
    }
    kept
}

/// `join_lines` grows at the back one line at a time.
proof fn lemma_join_push(ls: Seq<Seq<char>>, x: Seq<char>)
    ensures
        join_lines(ls.push(x)) == if ls.len() == 0 {
            x
        } else {
            join_lines(ls) + seq!['\n'] + x
        },
    decreases ls.len(),
{
    if ls.len() == 0 {
        assert(ls.push(x) =~= seq![x]);
        assert(join_lines(seq![x]) == x);
    } else {
        assert(ls.push(x).drop_first() =~= ls.drop_first().push(x));
        lemma_join_push(ls.drop_first(), x);
        if ls.len() == 1 {
            assert(join_lines(ls) == ls[0]);
            assert(ls.push(x)[0] == ls[0]);
        } else {
            assert(ls[0] + seq!['\n'] + (join_lines(ls.drop_first()) + seq!['\n'] + x) =~= (ls[0]
                + seq!['\n'] + join_lines(ls.drop_first())) + seq!['\n'] + x);
        }
    }
}

/// The kept lines joined with single newlines.
pub fn join_chars(kept: &Vec<Vec<char>>) -> (out: Vec<char>)
    ensures
        out@ == join_lines(kept.deep_view()),
{
    let mut out: Vec<char> = Vec::new();
    let mut i: usize = 0;
    proof {
        assert(kept.deep_view().take(0) =~= Seq::<Seq<char>>::empty());
        assert(out@ =~= Seq::<char>::empty());
    }
    while i < kept.len()
        invariant
            i <= kept@.len(),
            kept.deep_view().len() == kept@.len(),
            out@ == join_lines(kept.deep_view().take(i as int)),
        decreases kept@.len() - i,
    {
        proof {
            assert(kept.deep_view().take(i as int).push(kept.deep_view()[i as int])
                =~= kept.deep_view().take(i + 1));
            lemma_join_push(kept.deep_view().take(i as int), kept.deep_view()[i as int]);
            assert(kept.deep_view()[i as int] == kept@[i as int]@);
        }
        if i > 0 {
            out.push('\n');
        }
        let mut j: usize = 0;
        let ghost base = out@;
        while j < kept[i].len()
            invariant
                i < kept@.len(),
                j <= kept@[i as int]@.len(),
                out@ == base + kept@[i as int]@.take(j as int),
            decreases kept@[i as int]@.len() - j,
        {
            out.push(kept[i][j]);
            proof {
                assert(kept@[i as int]@.take(j as int).push(kept@[i as int]@[j as int])
                    =~= kept@[i as int]@.take(j + 1));
                assert(base + kept@[i as int]@.take(j as int).push(kept@[i as int]@[j as int])
                    =~= (base + kept@[i as int]@.take(j as int)).push(kept@[i as int]@[j as int]));
            }
            j = j + 1;
        }
        proof {
            assert(kept@[i as int]@.take(kept@[i as int]@.len() as int) =~= kept@[i as int]@);
        }
        i = i + 1;
    }
    proof {
        assert(kept.deep_view().take(kept.deep_view().len() as int) =~= kept.deep_view());
    }
    out
}

/// Cleans a raw transcript: lines are trimmed; blank lines, pure-timestamp
/// lines and immediate repeats are dropped; the rest are joined back with
/// single newlines. A deterministic pure transform.
pub fn clean_transcript(text: &str) -> (r: String)
    ensures
        r@ == spec_clean(text@),
{
    let chars = chars_of(text);
    let lines = split_chars(&chars);
    let kept = filter_lines(&lines);
    let joined = join_chars(&kept);
    string_of(&joined)
}

} // verus!
