//! Result aggregation.
//!
//! Each chunk task yields a list of `{author, title}` records; completion
//! order across chunks is arbitrary. Aggregation restores determinism:
//! flatten every chunk's records into one sequence, sort it by title with a
//! stable insertion sort, fold each run of equal titles into one entry whose
//! author field comma-joins the distinct authors seen for that title (in
//! first-seen order), and drop any entry whose joined author string equals
//! its own title — a defensive filter against model output that echoes the
//! title back as the author.

use vstd::prelude::*;

verus! {

/// One book record: who wrote it and what it is called.
pub struct Book {
    /// The author, or after aggregation the comma-joined distinct authors.
    pub author: String,
    /// The title, the key records are merged by.
    pub title: String,
}

/// The mathematical shadow of a `Book`: both fields as character sequences.
pub ghost struct BookView {
    /// The author field's characters.
    pub author: Seq<char>,
    /// The title field's characters.
    pub title: Seq<char>,
}

impl View for Book {
    type V = BookView;

    open spec fn view(&self) -> BookView {
        BookView { author: self.author@, title: self.title@ }
    }
}

impl DeepView for Book {
    type V = BookView;

    open spec fn deep_view(&self) -> BookView {
        self@
    }
}

impl Clone for Book {
    /// A clone holds the same author and title.
    fn clone(&self) -> (r: Self)
        ensures
            r == *self,
    {
        Book { author: self.author.clone(), title: self.title.clone() }
    }
}

/// Lexicographic order on character sequences, by code point.
pub open spec fn str_le(a: Seq<char>, b: Seq<char>) -> bool
    decreases a.len(),
{
    if a.len() == 0 {
        true
    } else if b.len() == 0 {
        false
    } else if a[0] == b[0] {
        str_le(a.drop_first(), b.drop_first())
    } else {
        a[0] < b[0]
    }
}

/// Whether `title_le(a, b)` holds of two books' titles.
pub open spec fn book_le(a: BookView, b: BookView) -> bool {
    str_le(a.title, b.title)
}

/// `b` inserted into the title-sorted `s`, after every entry whose title is
/// less than or equal to `b`'s — equal titles keep their first-seen order.
pub open spec fn insert_sorted(b: BookView, s: Seq<BookView>) -> Seq<BookView>
    decreases s.len(),
{
    if s.len() == 0 {
        seq![b]
    } else if book_le(s[0], b) {
        seq![s[0]] + insert_sorted(b, s.drop_first())
    } else {
        seq![b] + s
    }
}

/// Stable insertion sort of records by title.
pub open spec fn sort_books(s: Seq<BookView>) -> Seq<BookView>
    decreases s.len(),
{
    if s.len() == 0 {
        Seq::empty()
    } else {
        insert_sorted(s.last(), sort_books(s.drop_last()))
    }
}

/// Length of the initial run of records of `s` whose title is `t`.
pub open spec fn run_len(s: Seq<BookView>, t: Seq<char>) -> nat
    decreases s.len(),
{
    if s.len() == 0 || s[0].title != t {
        0
    } else {
        (1 + run_len(s.drop_first(), t)) as nat
    }
}

/// `s` with every element that `seen` already holds dropped, and each kept
/// element added to `seen` for the rest of the walk: first-seen
/// deduplication.
pub open spec fn dedup_seen(s: Seq<Seq<char>>, seen: Seq<Seq<char>>) -> Seq<Seq<char>>
    decreases s.len(),
{
    if s.len() == 0 {
        Seq::empty()
    } else if seen.contains(s[0]) {
        dedup_seen(s.drop_first(), seen)
    } else {
        seq![s[0]] + dedup_seen(s.drop_first(), seen.push(s[0]))
    }
}

/// The separator between joined author names.
pub open spec fn author_sep() -> Seq<char> {
    seq![',', ' ']
}

/// The author names joined with a comma and a space.
pub open spec fn join_authors(authors: Seq<Seq<char>>) -> Seq<char>
    decreases authors.len(),
{
    if authors.len() == 0 {
        Seq::empty()
    } else if authors.len() == 1 {
        authors[0]
    } else {
        authors[0] + author_sep() + join_authors(authors.drop_first())
    }
}

/// The entry standing for one run of equally titled records: the title, and
/// the run's distinct authors joined in first-seen order.
pub open spec fn run_entry(run: Seq<BookView>, t: Seq<char>) -> BookView {
    BookView {
        author: join_authors(dedup_seen(run.map_values(|b: BookView| b.author), Seq::empty())),
        title: t,
    }
}

/// A run never outruns the sequence, and a run of the first record's own
/// title holds at least that record.
pub proof fn lemma_run_len_bounds(s: Seq<BookView>, t: Seq<char>)
    ensures
        run_len(s, t) <= s.len(),
        s.len() > 0 && s[0].title == t ==> run_len(s, t) >= 1,
        forall|i: int| 0 <= i < run_len(s, t) ==> (#[trigger] s[i]).title == t,
        run_len(s, t) < s.len() ==> s[run_len(s, t) as int].title != t,
    decreases s.len(),
{
    if s.len() > 0 && s[0].title == t {
        lemma_run_len_bounds(s.drop_first(), t);
        assert forall|i: int| 0 <= i < run_len(s, t) implies (#[trigger] s[i]).title == t by {
            if i > 0 {
                assert(s.drop_first()[i - 1] == s[i]);
            }
        }
        if run_len(s, t) < s.len() {
            assert(s.drop_first()[run_len(s.drop_first(), t) as int] == s[run_len(s, t) as int]);
        }
    }
}

/// One entry per run of equally titled records, in run order. On a
/// title-sorted sequence this is one entry per distinct title.
pub open spec fn group_titles(s: Seq<BookView>) -> Seq<BookView>
    decreases s.len(),
    via group_titles_decreases
{
    if s.len() == 0 {
        Seq::empty()
    } else {
        let t = s[0].title;
        let k = run_len(s, t) as int;
        seq![run_entry(s.take(k), t)] + group_titles(s.skip(k))
    }
}

#[via_fn]
proof fn group_titles_decreases(s: Seq<BookView>) {
    if s.len() > 0 {
        lemma_run_len_bounds(s, s[0].title);
    }
}

/// Whether an aggregated entry survives the defensive self-title filter.
pub open spec fn keeps_entry(e: BookView) -> bool {
    e.author != e.title
}

/// The whole aggregation: flatten, sort by title, fold runs of one title
/// into single entries, drop self-titled entries.
pub open spec fn spec_aggregate(rs: Seq<Seq<BookView>>) -> Seq<BookView> {
    filter_entries(group_titles(sort_books(rs.flatten())))
}

/// Lexicographic title order, executably.
pub fn title_le(a: &String, b: &String) -> (r: bool)
    ensures
        r == str_le(a@, b@),
{
    let na = a.as_str().unicode_len();
    let nb = b.as_str().unicode_len();
    let mut i: usize = 0;
    proof {
        assert(a@.skip(0) =~= a@);
        assert(b@.skip(0) =~= b@);
    }
    while i < na && i < nb
        invariant_except_break
            i <= na,
            i <= nb,
            na == a@.len(),
            nb == b@.len(),
            str_le(a@, b@) == str_le(a@.skip(i as int), b@.skip(i as int)),
        ensures
            i <= na,
            i <= nb,
            na == a@.len(),
            nb == b@.len(),
            str_le(a@, b@) == str_le(a@.skip(i as int), b@.skip(i as int)),
            i == na || i == nb || a@[i as int] != b@[i as int],
        decreases na - i,
    {
        let ca = a.as_str().get_char(i);
        let cb = b.as_str().get_char(i);
        if ca != cb {
            break;
        }
        proof {
            assert(a@.skip(i as int).drop_first() =~= a@.skip(i + 1));
            assert(b@.skip(i as int).drop_first() =~= b@.skip(i + 1));
            assert(a@.skip(i as int)[0] == a@[i as int]);
            assert(b@.skip(i as int)[0] == b@[i as int]);
        }
        i = i + 1;
    }
    proof {
        assert(a@.skip(i as int).len() == a@.len() - i);
        assert(b@.skip(i as int).len() == b@.len() - i);
        if i < na && i < nb {
            assert(a@.skip(i as int)[0] == a@[i as int]);
            assert(b@.skip(i as int)[0] == b@[i as int]);
        }
    }
    if i == na {
        true
    } else if i == nb {
        false
    } else {
        let ca = a.as_str().get_char(i);
        let cb = b.as_str().get_char(i);
        ca < cb
    }
}

/// All chunk record lists flattened into one, in chunk order.
pub fn flatten_records(results: &Vec<Vec<Book>>) -> (all: Vec<Book>)
    ensures
        all.deep_view() == results.deep_view().flatten(),
{
    let mut all: Vec<Book> = Vec::new();
    let mut i: usize = 0;
    proof {
        assert(results.deep_view().take(0) =~= Seq::<Seq<BookView>>::empty());
        assert(all.deep_view() =~= results.deep_view().take(0).flatten());
    }
    while i < results.len()
        invariant
            i <= results@.len(),
            results.deep_view().len() == results@.len(),
            all.deep_view() == results.deep_view().take(i as int).flatten(),
        decreases results@.len() - i,
    {
        let chunk = &results[i];
        let ghost chunk_dv = results.deep_view()[i as int];
        proof {
            assert(chunk_dv == chunk.deep_view());
        }
        let mut j: usize = 0;
        let ghost base = all.deep_view();
        while j < chunk.len()
            invariant
                j <= chunk@.len(),
                chunk.deep_view().len() == chunk@.len(),
                chunk_dv == chunk.deep_view(),
                all.deep_view() == base + chunk_dv.take(j as int),
            decreases chunk@.len() - j,
        {
            let ghost pre = all.deep_view();
            all.push(chunk[j].clone());
            proof {
                assert(all.deep_view() =~~= pre.push(chunk@[j as int]@));
                assert(chunk_dv.take(j as int).push(chunk_dv[j as int]) =~= chunk_dv.take(j + 1));
                assert(base + chunk_dv.take(j as int).push(chunk_dv[j as int]) =~= (base
                    + chunk_dv.take(j as int)).push(chunk_dv[j as int]));
            }
            j = j + 1;
        }
        proof {
            assert(chunk_dv.take(chunk_dv.len() as int) =~= chunk_dv);
            Seq::lemma_flatten_push(results.deep_view().take(i as int), chunk_dv);
            assert(results.deep_view().take(i as int).push(chunk_dv) =~= results.deep_view().take(
                i + 1,
            ));
        }
        i = i + 1;
    }
    proof {
        assert(results.deep_view().take(results.deep_view().len() as int)
            =~= results.deep_view());
    }
    all
}

/// Inserts one record into a title-sorted vector, after every record whose
/// title is less than or equal, as `insert_sorted` describes.
fn insert_record(out: &mut Vec<Book>, b: Book)
    ensures
        final(out).deep_view() == insert_sorted(b@, old(out).deep_view()),
{
    let ghost full = out.deep_view();
    let mut idx: usize = 0;
    proof {
        assert(full.take(0) =~= Seq::<BookView>::empty());
        assert(full.skip(0) =~= full);
        assert(Seq::<BookView>::empty() + insert_sorted(b@, full) =~= insert_sorted(b@, full));
    }
    while idx < out.len()
        invariant_except_break
            idx <= out@.len(),
            full == out.deep_view(),
            out.deep_view().len() == out@.len(),
            insert_sorted(b@, full) == full.take(idx as int) + insert_sorted(
                b@,
                full.skip(idx as int),
            ),
        ensures
            idx <= out@.len(),
            full == out.deep_view(),
            out.deep_view().len() == out@.len(),
            insert_sorted(b@, full) == full.take(idx as int) + insert_sorted(
                b@,
                full.skip(idx as int),
            ),
            idx == out@.len() || !book_le(full[idx as int], b@),
        decreases out@.len() - idx,
    {
        if !title_le(&out[idx].title, &b.title) {
            proof {
                assert(full[idx as int] == out@[idx as int]@);
            }
            break;
        }
        proof {
            let rest = full.skip(idx as int);
            assert(rest[0] == full[idx as int]);
            assert(full[idx as int] == out@[idx as int]@);
            assert(book_le(rest[0], b@));
            assert(rest.drop_first() =~= full.skip(idx + 1));
            assert(full.take(idx as int) + (seq![rest[0]] + insert_sorted(b@, rest.drop_first()))
                =~= full.take(idx + 1) + insert_sorted(b@, full.skip(idx + 1)));
        }
        idx = idx + 1;
    }
    proof {
        let rest = full.skip(idx as int);
        if idx < out@.len() {
            assert(insert_sorted(b@, rest) == seq![b@] + rest);
        } else {
            assert(rest =~= Seq::<BookView>::empty());
            assert(insert_sorted(b@, rest) == seq![b@]);
        }
        assert(full.take(idx as int) + (seq![b@] + full.skip(idx as int)) =~= full.insert(
            idx as int,
            b@,
        ));
    }
    out.insert(idx, b);
    proof {
        assert(out.deep_view() =~~= full.insert(idx as int, b@));
    }
}

/// Title-sorts the flattened records with a stable insertion sort: records
/// of one title keep the order they arrived in.
#[verifier::rlimit(50)]
pub fn sort_records(books: Vec<Book>) -> (r: Vec<Book>)
    ensures
        r.deep_view() == sort_books(books.deep_view()),
{
    let ghost full = books.deep_view();
    let mut out: Vec<Book> = Vec::new();
    let mut i: usize = 0;
    proof {
        assert(full.take(0) =~= Seq::<BookView>::empty());
        assert(out.deep_view() =~= sort_books(full.take(0)));
    }
    let n = books.len();
    let mut src = books;
    while i < n
        invariant
            i <= n,
            n == src@.len(),
            full == src.deep_view(),
            src.deep_view().len() == src@.len(),
            out.deep_view() == sort_books(full.take(i as int)),
        decreases n - i,
    {
        let b = src[i].clone();
        proof {
            assert(b@ == full[i as int]);
            let prefix = full.take(i + 1);
            assert(prefix.drop_last() =~= full.take(i as int));
            assert(prefix.last() == full[i as int]);
            assert(sort_books(prefix) == insert_sorted(full[i as int], sort_books(full.take(
                i as int,
            ))));
        }
        insert_record(&mut out, b);
        i = i + 1;
    }
    proof {
        assert(full.take(n as int) =~= full);
    }
    out
}

/// A scan that sees `t` on the first `k` records and something else (or the
/// end) at `k` has found the run.
proof fn lemma_run_len_exact(s: Seq<BookView>, t: Seq<char>, k: int)
    requires
        0 <= k <= s.len(),
        forall|m: int| 0 <= m < k ==> (#[trigger] s[m]).title == t,
        k == s.len() || s[k].title != t,
    ensures
        run_len(s, t) == k,
    decreases s.len(),
{
    if k > 0 {
        assert(s[0].title == t);
        assert forall|m: int| 0 <= m < k - 1 implies (#[trigger] s.drop_first()[m]).title
            == t by {
            assert(s.drop_first()[m] == s[m + 1]);
        }
        if k - 1 < s.drop_first().len() {
            assert(s.drop_first()[k - 1] == s[k]);
        }
        lemma_run_len_exact(s.drop_first(), t, k - 1);
    }
}

/// Deduplication drops exactly what `seen` or the walked prefix already
/// held.
proof fn lemma_dedup_contains(s: Seq<Seq<char>>, seen: Seq<Seq<char>>, y: Seq<char>)
    ensures
        dedup_seen(s, seen).contains(y) <==> (s.contains(y) && !seen.contains(y)),
    decreases s.len(),
{
    if s.len() > 0 {
        if seen.contains(s[0]) {
            lemma_dedup_contains(s.drop_first(), seen, y);
            assert(s.contains(y) && !seen.contains(y) ==> s.drop_first().contains(y)) by {
                if s.contains(y) && !seen.contains(y) {
                    let w = choose|w: int| 0 <= w < s.len() && s[w] == y;
                    assert(w != 0);
                    assert(s.drop_first()[w - 1] == y);
                }
            }
            assert(s.drop_first().contains(y) ==> s.contains(y)) by {
                if s.drop_first().contains(y) {
                    let w = choose|w: int| 0 <= w < s.drop_first().len() && s.drop_first()[w]
                        == y;
                    assert(s[w + 1] == y);
                }
            }
        } else {
            lemma_dedup_contains(s.drop_first(), seen.push(s[0]), y);
            let d = dedup_seen(s, seen);
            assert(d == seq![s[0]] + dedup_seen(s.drop_first(), seen.push(s[0])));
            if y == s[0] {
                assert(d[0] == y);
                assert(d.contains(y));
                assert(s[0] == y && s.contains(y)) by {
                    assert(s[0] == y);
                }
            } else {
                assert(d.contains(y) <==> dedup_seen(s.drop_first(), seen.push(s[0])).contains(
                    y,
                )) by {
                    if d.contains(y) {
                        let w = choose|w: int| 0 <= w < d.len() && d[w] == y;
                        assert(w != 0);
                        assert(dedup_seen(s.drop_first(), seen.push(s[0]))[w - 1] == y);
                    }
                    if dedup_seen(s.drop_first(), seen.push(s[0])).contains(y) {
                        let w = choose|w: int|
                            0 <= w < dedup_seen(s.drop_first(), seen.push(s[0])).len()
                                && dedup_seen(s.drop_first(), seen.push(s[0]))[w] == y;
                        assert(d[w + 1] == y);
                    }
                }
                assert(seen.push(s[0]).contains(y) <==> seen.contains(y)) by {
                    if seen.push(s[0]).contains(y) {
                        let w = choose|w: int|
                            0 <= w < seen.push(s[0]).len() && seen.push(s[0])[w] == y;
                        assert(w != seen.len());
                        assert(seen[w] == y);
                    }
                    if seen.contains(y) {
                        let w = choose|w: int| 0 <= w < seen.len() && seen[w] == y;
                        assert(seen.push(s[0])[w] == y);
                    }
                }
                assert(s.contains(y) <==> s.drop_first().contains(y)) by {
                    if s.contains(y) {
                        let w = choose|w: int| 0 <= w < s.len() && s[w] == y;
                        assert(w != 0);
                        assert(s.drop_first()[w - 1] == y);
                    }
                    if s.drop_first().contains(y) {
                        let w = choose|w: int|
                            0 <= w < s.drop_first().len() && s.drop_first()[w] == y;
                        assert(s[w + 1] == y);
                    }
                }
            }
        }
    }
}

/// Walking one more element extends the deduplicated sequence iff the
/// element is new.
proof fn lemma_dedup_push(s: Seq<Seq<char>>, seen: Seq<Seq<char>>, x: Seq<char>)
    ensures
        dedup_seen(s.push(x), seen) == dedup_seen(s, seen) + (if s.contains(x) || seen.contains(
            x,
        ) {
            Seq::<Seq<char>>::empty()
        } else {
            seq![x]
        }),
    decreases s.len(),
{
    if s.len() == 0 {
        assert(s.push(x) =~= seq![x]);
        assert(s.push(x)[0] == x);
        assert(s.push(x).drop_first() =~= Seq::<Seq<char>>::empty());
        assert(dedup_seen(Seq::<Seq<char>>::empty(), seen) == Seq::<Seq<char>>::empty());
        assert(dedup_seen(Seq::<Seq<char>>::empty(), seen.push(x)) == Seq::<Seq<char>>::empty());
        assert(!s.contains(x));
        if seen.contains(x) {
            assert(dedup_seen(s.push(x), seen) == dedup_seen(s.push(x).drop_first(), seen));
            assert(dedup_seen(s.push(x), seen) =~~= dedup_seen(s, seen)
                + Seq::<Seq<char>>::empty());
        } else {
            assert(dedup_seen(s.push(x), seen) == seq![x] + dedup_seen(
                s.push(x).drop_first(),
                seen.push(x),
            ));
            assert(dedup_seen(s.push(x), seen) =~~= dedup_seen(s, seen) + seq![x]);
        }
    } else {
        assert(s.push(x)[0] == s[0]);
        assert(s.push(x).drop_first() =~= s.drop_first().push(x));
        assert(s.contains(x) <==> (s[0] == x || s.drop_first().contains(x))) by {
            if s.contains(x) {
                let w = choose|w: int| 0 <= w < s.len() && s[w] == x;
                if w != 0 {
                    assert(s.drop_first()[w - 1] == x);
                }
            }
            if s.drop_first().contains(x) {
                let w = choose|w: int| 0 <= w < s.drop_first().len() && s.drop_first()[w] == x;
                assert(s[w + 1] == x);
            }
        }
        if seen.contains(s[0]) {
            lemma_dedup_push(s.drop_first(), seen, x);
            if s[0] == x {
                assert(seen.contains(x));
            }
        } else {
            lemma_dedup_push(s.drop_first(), seen.push(s[0]), x);
            assert(seen.push(s[0]).contains(x) <==> (s[0] == x || seen.contains(x))) by {
                if seen.push(s[0]).contains(x) {
                    let w = choose|w: int|
                        0 <= w < seen.push(s[0]).len() && seen.push(s[0])[w] == x;
                    if w != seen.len() {
                        assert(seen[w] == x);
                    }
                }
                if seen.contains(x) {
                    let w = choose|w: int| 0 <= w < seen.len() && seen[w] == x;
                    assert(seen.push(s[0])[w] == x);
                }
                assert(seen.push(s[0])[seen.len() as int] == s[0]);
            }
            assert(seq![s[0]] + (dedup_seen(s.drop_first(), seen.push(s[0])) + (if s.drop_first().contains(
                x,
            ) || seen.push(s[0]).contains(x) {
                Seq::<Seq<char>>::empty()
            } else {
                seq![x]
            })) =~~= (seq![s[0]] + dedup_seen(s.drop_first(), seen.push(s[0]))) + (if s.drop_first().contains(
                x,
            ) || seen.push(s[0]).contains(x) {
                Seq::<Seq<char>>::empty()
            } else {
                seq![x]
            }));
        }
        if s.contains(x) || seen.contains(x) {
            assert(dedup_seen(s, seen) + Seq::<Seq<char>>::empty() =~~= dedup_seen(s, seen));
        }
    }
}

/// `join_authors` grows at the back one name at a time.
proof fn lemma_join_authors_push(ls: Seq<Seq<char>>, x: Seq<char>)
    ensures
        join_authors(ls.push(x)) == if ls.len() == 0 {
            x
        } else {
            join_authors(ls) + author_sep() + x
        },
    decreases ls.len(),
{
    if ls.len() == 0 {
        assert(ls.push(x) =~= seq![x]);
        assert(join_authors(seq![x]) == x);
    } else {
        assert(ls.push(x).drop_first() =~= ls.drop_first().push(x));
        lemma_join_authors_push(ls.drop_first(), x);
        if ls.len() == 1 {
            assert(join_authors(ls) == ls[0]);
            assert(ls.push(x)[0] == ls[0]);
        } else {
            assert(ls[0] + author_sep() + (join_authors(ls.drop_first()) + author_sep() + x)
                =~= (ls[0] + author_sep() + join_authors(ls.drop_first())) + author_sep() + x);
        }
    }
}

/// Whether one of the collected author names equals `x`.
fn contains_string(v: &Vec<String>, x: &String) -> (r: bool)
    ensures
        r == v.deep_view().contains(x@),
{
    let mut i: usize = 0;
    while i < v.len()
        invariant
            i <= v@.len(),
            v.deep_view().len() == v@.len(),
            forall|j: int| 0 <= j < i ==> v.deep_view()[j] != x@,
        decreases v@.len() - i,
    {
        if v[i] == *x {
            proof {
                assert(v.deep_view()[i as int] == x@);
            }
            return true;
        }
        i = i + 1;
    }
    proof {
        assert(!v.deep_view().contains(x@)) by {
            if v.deep_view().contains(x@) {
                let w = choose|w: int| 0 <= w < v.deep_view().len() && v.deep_view()[w] == x@;
                assert(v.deep_view()[w] != x@);
            }
        }
    }
    false
}

/// The collected author names joined with a comma and a space.
fn join_author_strings(authors: &Vec<String>) -> (r: String)
    ensures
        r@ == join_authors(authors.deep_view()),
{
    let mut out = String::new();
    let mut i: usize = 0;
    proof {
        assert(authors.deep_view().take(0) =~= Seq::<Seq<char>>::empty());
    }
    while i < authors.len()
        invariant
            i <= authors@.len(),
            authors.deep_view().len() == authors@.len(),
            out@ == join_authors(authors.deep_view().take(i as int)),
        decreases authors@.len() - i,
    {
        proof {
            assert(authors.deep_view().take(i as int).push(authors.deep_view()[i as int])
                =~= authors.deep_view().take(i + 1));
            lemma_join_authors_push(
                authors.deep_view().take(i as int),
                authors.deep_view()[i as int],
            );
            assert(authors.deep_view()[i as int] == authors@[i as int]@);
        }
        if i > 0 {
            proof {
                reveal_strlit(", ");
                assert(", "@ =~= author_sep());
            }
            out.append(", ");
        }
        out.append(authors[i].as_str());
        i = i + 1;
    }
    proof {
        assert(authors.deep_view().take(authors.deep_view().len() as int)
            =~= authors.deep_view());
    }
    out
}

/// Folds every run of equally titled records into one entry: the title, and
/// the run's distinct authors joined in first-seen order.
#[verifier::rlimit(50)]
pub fn group_records(sorted: &Vec<Book>) -> (out: Vec<Book>)
    ensures
        out.deep_view() == group_titles(sorted.deep_view()),
{
    let ghost full = sorted.deep_view();
    let mut out: Vec<Book> = Vec::new();
    let mut i: usize = 0;
    proof {
        assert(full.skip(0) =~= full);
        assert(out.deep_view() + group_titles(full) =~= group_titles(full));
    }
    while i < sorted.len()
        invariant
            i <= sorted@.len(),
            full == sorted.deep_view(),
            full.len() == sorted@.len(),
            group_titles(full) == out.deep_view() + group_titles(full.skip(i as int)),
        decreases sorted@.len() - i,
    {
        let t = sorted[i].title.clone();
        proof {
            assert(t@ == full[i as int].title);
        }
        let mut authors: Vec<String> = Vec::new();
        let mut j: usize = i;
        proof {
            assert(full.subrange(i as int, i as int).map_values(|b: BookView| b.author)
                =~= Seq::<Seq<char>>::empty());
            assert(authors.deep_view() =~~= dedup_seen(
                full.subrange(i as int, i as int).map_values(|b: BookView| b.author),
                Seq::empty(),
            ));
        }
        while j < sorted.len()
            invariant_except_break
                i <= j <= sorted@.len(),
                i < sorted@.len(),
                full == sorted.deep_view(),
                full.len() == sorted@.len(),
                t@ == full[i as int].title,
                forall|m: int| i <= m < j ==> (#[trigger] full[m]).title == t@,
                authors.deep_view() == dedup_seen(
                    full.subrange(i as int, j as int).map_values(|b: BookView| b.author),
                    Seq::empty(),
                ),
            ensures
                i < j <= sorted@.len(),
                full == sorted.deep_view(),
                full.len() == sorted@.len(),
                t@ == full[i as int].title,
                forall|m: int| i <= m < j ==> (#[trigger] full[m]).title == t@,
                authors.deep_view() == dedup_seen(
                    full.subrange(i as int, j as int).map_values(|b: BookView| b.author),
                    Seq::empty(),
                ),
                j == sorted@.len() || full[j as int].title != t@,
            decreases sorted@.len() - j,
        {
            if !(sorted[j].title == t) {
                proof {
                    assert(full[j as int].title == sorted@[j as int]@.title);
                }
                break;
            }
            proof {
                assert(full[j as int].title == t@);
            }
            let x = sorted[j].author.clone();
            let ghost prefix = full.subrange(i as int, j as int).map_values(
                |b: BookView| b.author,
            );
            proof {
                assert(x@ == full[j as int].author);
                lemma_dedup_contains(prefix, Seq::empty(), x@);
                lemma_dedup_push(prefix, Seq::empty(), x@);
                assert(full.subrange(i as int, j + 1) =~= full.subrange(i as int, j as int).push(
                    full[j as int],
                ));
                assert(full.subrange(i as int, j + 1).map_values(|b: BookView| b.author)
                    =~= prefix.push(full[j as int].author));
            }
            if !contains_string(&authors, &x) {
                let ghost pre = authors.deep_view();
                authors.push(x);
                proof {
                    assert(authors.deep_view() =~~= pre.push(full[j as int].author));
                    assert(pre.push(full[j as int].author) =~~= pre + seq![
                        full[j as int].author,
                    ]);
                }
            } else {
                proof {
                    assert(authors.deep_view() + Seq::<Seq<char>>::empty() =~~= authors.deep_view());
                }
            }
            j = j + 1;
        }
        let ghost rem = full.skip(i as int);
        let ghost k = j - i;
        proof {
            assert forall|m: int| 0 <= m < k implies (#[trigger] rem[m]).title == t@ by {
                assert(rem[m] == full[i + m]);
            }
            assert(rem[0].title == t@);
            if k < rem.len() {
                assert(rem[k] == full[j as int]);
            }
            lemma_run_len_exact(rem, t@, k);
            assert(rem.take(k) =~= full.subrange(i as int, j as int));
            assert(rem.take(k).map_values(|b: BookView| b.author) =~= full.subrange(
                i as int,
                j as int,
            ).map_values(|b: BookView| b.author));
        }
        let joined = join_author_strings(&authors);
        let ghost pre_out = out.deep_view();
        out.push(Book { author: joined, title: t });
        proof {
            let entry = run_entry(rem.take(k), t@);
            assert(out@.last()@ == entry);
            assert(out.deep_view() =~~= pre_out.push(entry));
            assert(group_titles(rem) == seq![entry] + group_titles(rem.skip(k)));
            assert(rem.skip(k) =~= full.skip(j as int));
            assert(pre_out.push(entry) + group_titles(full.skip(j as int)) =~~= pre_out + (seq![
                entry,
            ] + group_titles(full.skip(j as int))));
        }
        i = j;
    }
    proof {
        assert(full.skip(full.len() as int) =~= Seq::<BookView>::empty());
        assert(out.deep_view() + Seq::<BookView>::empty() =~= out.deep_view());
    }
    out
}

/// The aggregated entries that survive the self-title filter, in order.
pub open spec fn filter_entries(s: Seq<BookView>) -> Seq<BookView>
    decreases s.len(),
{
    if s.len() == 0 {
        Seq::empty()
    } else if keeps_entry(s[0]) {
        seq![s[0]] + filter_entries(s.drop_first())
    } else {
        filter_entries(s.drop_first())
    }
}

/// Drops every entry whose author string equals its title.
pub fn filter_self_titled(entries: Vec<Book>) -> (out: Vec<Book>)
    ensures
        out.deep_view() == filter_entries(entries.deep_view()),
{
    let ghost full = entries.deep_view();
    let mut out: Vec<Book> = Vec::new();
    let mut i: usize = 0;
    proof {
        assert(full.skip(0) =~= full);
        assert(out.deep_view() + filter_entries(full) =~= filter_entries(full));
    }
    while i < entries.len()
        invariant
            i <= entries@.len(),
            full == entries.deep_view(),
            full.len() == entries@.len(),
            filter_entries(full) == out.deep_view() + filter_entries(full.skip(i as int)),
        decreases entries@.len() - i,
    {
        proof {
            assert(full.skip(i as int)[0] == full[i as int]);
            assert(full.skip(i as int).drop_first() =~= full.skip(i + 1));
            assert(full[i as int] == entries@[i as int]@);
        }
        if !(entries[i].author == entries[i].title) {
            let ghost pre = out.deep_view();
            let b = entries[i].clone();
            out.push(b);
            proof {
                assert(out.deep_view() =~~= pre.push(full[i as int]));
                assert(pre + (seq![full[i as int]] + filter_entries(full.skip(i + 1)))
                    =~= pre.push(full[i as int]) + filter_entries(full.skip(i + 1)));
            }
        }
        i = i + 1;
    }
    proof {
        assert(full.skip(full.len() as int) =~= Seq::<BookView>::empty());
        assert(out.deep_view() + Seq::<BookView>::empty() =~= out.deep_view());
    }
    out
}

/// Self-title filter: no aggregated entry ever carries an author string
/// equal to its own title — the defensive filter drops every such entry.
pub proof fn lemma_no_self_titled(rs: Seq<Seq<BookView>>)
    ensures
        forall|i: int|
            0 <= i < spec_aggregate(rs).len() ==> keeps_entry(#[trigger] spec_aggregate(rs)[i]),
{
    lemma_filter_entries_keeps(group_titles(sort_books(rs.flatten())));
}

/// Every entry that survives `filter_entries` satisfies the filter.
proof fn lemma_filter_entries_keeps(s: Seq<BookView>)
    ensures
        forall|i: int|
            0 <= i < filter_entries(s).len() ==> keeps_entry(#[trigger] filter_entries(s)[i]),
    decreases s.len(),
{
    if s.len() > 0 {
        lemma_filter_entries_keeps(s.drop_first());
        if keeps_entry(s[0]) {
            assert forall|i: int| 0 <= i < filter_entries(s).len() implies keeps_entry(
                #[trigger] filter_entries(s)[i],
            ) by {
                if i > 0 {
                    assert(filter_entries(s)[i] == filter_entries(s.drop_first())[i - 1]);
                }
            }
        }
    }
}

/// A chunk without records leaves the flattened sequence unchanged.
proof fn lemma_flatten_remove_empty(rs: Seq<Seq<BookView>>, i: int)
    requires
        0 <= i < rs.len(),
        rs[i].len() == 0,
    ensures
        rs.flatten() == rs.remove(i).flatten(),
    decreases i,
{
    if i == 0 {
        assert(rs[0] =~= Seq::<BookView>::empty());
        assert(rs.flatten() == rs[0] + rs.drop_first().flatten());
        assert(rs[0] + rs.drop_first().flatten() =~= rs.drop_first().flatten());
        assert(rs.remove(0) =~= rs.drop_first());
    } else {
        assert(rs.drop_first()[i - 1] == rs[i]);
        lemma_flatten_remove_empty(rs.drop_first(), i - 1);
        assert(rs.remove(i).drop_first() =~= rs.drop_first().remove(i - 1));
        assert(rs.remove(i)[0] == rs[0]);
        assert(rs.flatten() == rs[0] + rs.drop_first().flatten());
        assert(rs.remove(i).flatten() == rs[0] + rs.drop_first().remove(i - 1).flatten());
    }
}

/// Partial failure tolerance: a chunk that contributed no records (failed
/// admission, service error, or undecodable response) leaves the aggregated
/// result exactly what it would have been without that chunk — every valid
/// record of the other chunks is preserved.
pub proof fn lemma_empty_chunk_ignored(rs: Seq<Seq<BookView>>, i: int)
    requires
        0 <= i < rs.len(),
        rs[i].len() == 0,
    ensures
        spec_aggregate(rs) == spec_aggregate(rs.remove(i)),
{
    lemma_flatten_remove_empty(rs, i);
}

/// Title order is reflexive.
proof fn lemma_str_le_refl(s: Seq<char>)
    ensures
        str_le(s, s),
    decreases s.len(),
{
    if s.len() > 0 {
        lemma_str_le_refl(s.drop_first());
    }
}

/// Title order is total.
proof fn lemma_str_le_total(a: Seq<char>, b: Seq<char>)
    ensures
        str_le(a, b) || str_le(b, a),
    decreases a.len(),
{
    if a.len() > 0 && b.len() > 0 && a[0] == b[0] {
        lemma_str_le_total(a.drop_first(), b.drop_first());
    }
}

/// Title order is antisymmetric.
proof fn lemma_str_le_antisym(a: Seq<char>, b: Seq<char>)
    requires
        str_le(a, b),
        str_le(b, a),
    ensures
        a == b,
    decreases a.len(),
{
    if a.len() == 0 {
        assert(b.len() == 0);
        assert(a =~= b);
    } else {
        assert(b.len() > 0);
        assert(a[0] == b[0]);
        lemma_str_le_antisym(a.drop_first(), b.drop_first());
        assert(a =~= b) by {
            assert(forall|i: int|
                1 <= i < a.len() ==> a[i] == a.drop_first()[i - 1] && b[i] == b.drop_first()[i
                    - 1]);
        }
    }
}

/// Title order is transitive.
proof fn lemma_str_le_trans(a: Seq<char>, b: Seq<char>, c: Seq<char>)
    requires
        str_le(a, b),
        str_le(b, c),
    ensures
        str_le(a, c),
    decreases a.len(),
{
    if a.len() > 0 {
        assert(b.len() > 0);
        assert(c.len() > 0);
        if a[0] == b[0] && b[0] == c[0] {
            lemma_str_le_trans(a.drop_first(), b.drop_first(), c.drop_first());
        }
    }
}

/// Pairwise title-sortedness.
pub open spec fn sorted_by_title(s: Seq<BookView>) -> bool {
    forall|i: int, j: int| 0 <= i < j < s.len() ==> book_le(#[trigger] s[i], #[trigger] s[j])
}

/// Pairwise title-sortedness with pairwise distinct titles.
pub open spec fn strictly_sorted_by_title(s: Seq<BookView>) -> bool {
    forall|i: int, j: int|
        0 <= i < j < s.len() ==> book_le(#[trigger] s[i], #[trigger] s[j]) && s[i].title
            != s[j].title
}

/// How far `insert_sorted` walks before placing its record.
spec fn ins_point(b: BookView, s: Seq<BookView>) -> nat
    decreases s.len(),
{
    if s.len() == 0 {
        0
    } else if book_le(s[0], b) {
        (1 + ins_point(b, s.drop_first())) as nat
    } else {
        0
    }
}

/// `insert_sorted` splits the sequence at the insertion point, where every
/// earlier record compares below the new one and the record at the point
/// (if any) does not.
proof fn lemma_insert_sorted_split(b: BookView, s: Seq<BookView>)
    ensures
        ins_point(b, s) <= s.len(),
        insert_sorted(b, s) == s.take(ins_point(b, s) as int) + seq![b] + s.skip(
            ins_point(b, s) as int,
        ),
        forall|i: int| 0 <= i < ins_point(b, s) ==> book_le(#[trigger] s[i], b),
        ins_point(b, s) < s.len() ==> !book_le(s[ins_point(b, s) as int], b),
    decreases s.len(),
{
    let p = ins_point(b, s) as int;
    if s.len() == 0 {
        assert(s.take(0) =~= Seq::<BookView>::empty());
        assert(s.skip(0) =~= Seq::<BookView>::empty());
        assert(s.take(0) + seq![b] + s.skip(0) =~= seq![b]);
    } else if book_le(s[0], b) {
        lemma_insert_sorted_split(b, s.drop_first());
        let q = ins_point(b, s.drop_first()) as int;
        assert(p == q + 1);
        assert(s.drop_first().take(q) =~= s.take(p).drop_first());
        assert(s.drop_first().skip(q) =~= s.skip(p));
        assert(seq![s[0]] + (s.drop_first().take(q) + seq![b] + s.drop_first().skip(q))
            =~= s.take(p) + seq![b] + s.skip(p));
        assert forall|i: int| 0 <= i < p implies book_le(#[trigger] s[i], b) by {
            if i > 0 {
                assert(s.drop_first()[i - 1] == s[i]);
            }
        }
        if p < s.len() {
            assert(s.drop_first()[q] == s[p]);
        }
    } else {
        assert(s.take(0) =~= Seq::<BookView>::empty());
        assert(s.skip(0) =~= s);
        assert(s.take(0) + seq![b] + s.skip(0) =~= seq![b] + s);
    }
}

/// A record that compares at or above everything goes to the end.
proof fn lemma_insert_sorted_end(b: BookView, s: Seq<BookView>)
    requires
        forall|i: int| 0 <= i < s.len() ==> book_le(#[trigger] s[i], b),
    ensures
        insert_sorted(b, s) == s.push(b),
{
    lemma_insert_sorted_split(b, s);
    assert(ins_point(b, s) == s.len());
    assert(s.take(s.len() as int) =~= s);
    assert(s.skip(s.len() as int) =~= Seq::<BookView>::empty());
    assert(s.take(s.len() as int) + seq![b] + s.skip(s.len() as int) =~= s.push(b));
}

/// Inserting into a title-sorted sequence keeps it title-sorted.
proof fn lemma_insert_sorted_sorted(b: BookView, s: Seq<BookView>)
    requires
        sorted_by_title(s),
    ensures
        sorted_by_title(insert_sorted(b, s)),
{
    lemma_insert_sorted_split(b, s);
    let p = ins_point(b, s) as int;
    let r = insert_sorted(b, s);
    if p < s.len() {
        lemma_str_le_total(s[p].title, b.title);
        assert(book_le(b, s[p]));
    }
    assert forall|i: int, j: int| 0 <= i < j < r.len() implies book_le(
        #[trigger] r[i],
        #[trigger] r[j],
    ) by {
        if i < p {
            assert(r[i] == s[i]);
        } else if i == p {
            assert(r[i] == b);
        } else {
            assert(r[i] == s[i - 1]);
        }
        if j < p {
            assert(r[j] == s[j]);
        } else if j == p {
            assert(r[j] == b);
        } else {
            assert(r[j] == s[j - 1]);
        }
        if j == p {
            // r[i] == s[i] with i < p
            assert(book_le(s[i], b));
        } else if i == p {
            // r[j] == s[j - 1] with j - 1 >= p
            if j - 1 > p {
                lemma_str_le_trans(b.title, s[p].title, s[j - 1].title);
            }
        } else if i < p && j > p {
            assert(book_le(s[i], s[j - 1]));
        }
    }
}

/// Sorting always yields a title-sorted sequence.
proof fn lemma_sort_sorted(s: Seq<BookView>)
    ensures
        sorted_by_title(sort_books(s)),
    decreases s.len(),
{
    if s.len() > 0 {
        lemma_sort_sorted(s.drop_last());
        lemma_insert_sorted_sorted(s.last(), sort_books(s.drop_last()));
    }
}

/// Sorting an already title-sorted sequence changes nothing.
proof fn lemma_sort_identity(s: Seq<BookView>)
    requires
        sorted_by_title(s),
    ensures
        sort_books(s) == s,
    decreases s.len(),
{
    if s.len() > 0 {
        assert(forall|i: int, j: int|
            0 <= i < j < s.drop_last().len() ==> book_le(
                #[trigger] s.drop_last()[i],
                #[trigger] s.drop_last()[j],
            ));
        lemma_sort_identity(s.drop_last());
        assert(forall|i: int| 0 <= i < s.drop_last().len() ==> book_le(
            #[trigger] s.drop_last()[i],
            s.last(),
        ));
        lemma_insert_sorted_end(s.last(), s.drop_last());
        assert(s.drop_last().push(s.last()) =~= s);
    }
}

/// Grouping a title-sorted sequence yields strictly increasing titles, the
/// first of them the input's first title.
proof fn lemma_group_strict(s: Seq<BookView>)
    requires
        sorted_by_title(s),
    ensures
        strictly_sorted_by_title(group_titles(s)),
        s.len() > 0 ==> group_titles(s).len() > 0 && group_titles(s)[0].title == s[0].title,
    decreases s.len(),
{
    if s.len() > 0 {
        let t = s[0].title;
        let k = run_len(s, t) as int;
        lemma_run_len_bounds(s, t);
        let tail = s.skip(k);
        assert forall|i: int, j: int| 0 <= i < j < tail.len() implies book_le(
            #[trigger] tail[i],
            #[trigger] tail[j],
        ) by {
            assert(tail[i] == s[k + i]);
            assert(tail[j] == s[k + j]);
        }
        lemma_group_strict(tail);
        let g = group_titles(s);
        let gt = group_titles(tail);
        assert(g == seq![run_entry(s.take(k), t)] + gt);
        assert(g[0] == run_entry(s.take(k), t));
        assert(g[0].title == t);
        if tail.len() > 0 {
            assert(tail[0] == s[k]);
            assert(tail[0].title != t);
            assert(book_le(s[0], s[k]));
            assert(gt[0].title == tail[0].title);
        }
        assert forall|i: int, j: int| 0 <= i < j < g.len() implies book_le(
            #[trigger] g[i],
            #[trigger] g[j],
        ) && g[i].title != g[j].title by {
            if i > 0 {
                assert(g[i] == gt[i - 1]);
                assert(g[j] == gt[j - 1]);
            } else {
                assert(g[j] == gt[j - 1]);
                // the tail's first entry carries the tail's first title
                if j - 1 > 0 {
                    assert(book_le(gt[0], gt[j - 1]));
                } else {
                    lemma_str_le_refl(gt[0].title);
                }
                assert(book_le(g[0], gt[0])) by {
                    assert(gt[0].title == tail[0].title);
                }
                lemma_str_le_trans(g[0].title, gt[0].title, gt[j - 1].title);
                // distinct: equality would force the boundary titles equal
                if g[0].title == gt[j - 1].title {
                    assert(str_le(gt[0].title, gt[j - 1].title));
                    assert(str_le(g[0].title, gt[0].title));
                    assert(str_le(gt[0].title, g[0].title));
                    lemma_str_le_antisym(g[0].title, gt[0].title);
                    assert(tail[0].title == t);
                    assert(false);
                }
            }
        }
    }
}

/// Grouping a sequence whose neighbouring titles already differ changes
/// nothing: every run is one record, its author list that record's own.
proof fn lemma_group_identity(s: Seq<BookView>)
    requires
        forall|i: int| 0 <= i && i + 1 < s.len() ==> (#[trigger] s[i]).title != s[i + 1].title,
    ensures
        group_titles(s) == s,
    decreases s.len(),
{
    if s.len() > 0 {
        let t = s[0].title;
        if s.len() > 1 {
            assert(s[1].title != t);
        }
        lemma_run_len_exact(s, t, 1);
        let run = s.take(1);
        assert(run =~= seq![s[0]]);
        let authors = run.map_values(|b: BookView| b.author);
        assert(authors =~= seq![s[0].author]);
        assert(!Seq::<Seq<char>>::empty().contains(s[0].author));
        assert(seq![s[0].author].drop_first() =~= Seq::<Seq<char>>::empty());
        assert(dedup_seen(Seq::<Seq<char>>::empty(), Seq::<Seq<char>>::empty().push(s[0].author))
            == Seq::<Seq<char>>::empty());
        assert(dedup_seen(seq![s[0].author], Seq::<Seq<char>>::empty()) == seq![s[0].author]
            + Seq::<Seq<char>>::empty());
        assert(dedup_seen(authors, Seq::<Seq<char>>::empty()) =~~= seq![s[0].author]);
        assert(join_authors(seq![s[0].author]) == s[0].author);
        assert(run_entry(run, t) == s[0]);
        let tail = s.skip(1);
        assert forall|i: int| 0 <= i && i + 1 < tail.len() implies (#[trigger] tail[i]).title
            != tail[i + 1].title by {
            assert(tail[i] == s[i + 1]);
            assert(tail[i + 1] == s[i + 2]);
        }
        lemma_group_identity(tail);
        assert(seq![s[0]] + tail =~= s);
    }
}

/// Every record that survives the self-title filter stands in the input.
proof fn lemma_filter_entries_member(s: Seq<BookView>)
    ensures
        forall|j: int|
            0 <= j < filter_entries(s).len() ==> exists|i: int|
                0 <= i < s.len() && s[i] == #[trigger] filter_entries(s)[j],
    decreases s.len(),
{
    if s.len() > 0 {
        lemma_filter_entries_member(s.drop_first());
        let f = filter_entries(s);
        let fr = filter_entries(s.drop_first());
        assert forall|j: int| 0 <= j < f.len() implies exists|i: int|
            0 <= i < s.len() && s[i] == #[trigger] f[j] by {
            if keeps_entry(s[0]) {
                if j == 0 {
                    assert(f[0] == s[0]);
                    assert(0 <= 0 < s.len() && s[0] == f[0]);
                } else {
                    assert(f[j] == fr[j - 1]);
                    let i = choose|i: int| 0 <= i < s.drop_first().len() && s.drop_first()[i]
                        == fr[j - 1];
                    assert(s[i + 1] == f[j]);
                }
            } else {
                assert(f[j] == fr[j]);
                let i = choose|i: int| 0 <= i < s.drop_first().len() && s.drop_first()[i]
                    == fr[j];
                assert(s[i + 1] == f[j]);
            }
        }
    }
}

/// The self-title filter keeps strict title order.
proof fn lemma_filter_entries_strict(s: Seq<BookView>)
    requires
        strictly_sorted_by_title(s),
    ensures
        strictly_sorted_by_title(filter_entries(s)),
    decreases s.len(),
{
    if s.len() > 0 {
        assert forall|i: int, j: int| 0 <= i < j < s.drop_first().len() implies book_le(
            #[trigger] s.drop_first()[i],
            #[trigger] s.drop_first()[j],
        ) && s.drop_first()[i].title != s.drop_first()[j].title by {
            assert(s.drop_first()[i] == s[i + 1]);
            assert(s.drop_first()[j] == s[j + 1]);
        }
        lemma_filter_entries_strict(s.drop_first());
        lemma_filter_entries_member(s.drop_first());
        let f = filter_entries(s);
        let fr = filter_entries(s.drop_first());
        assert forall|i: int, j: int| 0 <= i < j < f.len() implies book_le(
            #[trigger] f[i],
            #[trigger] f[j],
        ) && f[i].title != f[j].title by {
            if keeps_entry(s[0]) {
                if i == 0 {
                    assert(f[j] == fr[j - 1]);
                    let w = choose|w: int| 0 <= w < s.drop_first().len() && s.drop_first()[w]
                        == fr[j - 1];
                    assert(s[w + 1] == f[j]);
                    assert(book_le(s[0], s[w + 1]) && s[0].title != s[w + 1].title);
                    assert(f[0] == s[0]);
                } else {
                    assert(f[i] == fr[i - 1]);
                    assert(f[j] == fr[j - 1]);
                }
            } else {
                assert(f[i] == fr[i]);
                assert(f[j] == fr[j]);
            }
        }
    }
}

/// Filtering a sequence the filter keeps whole changes nothing.
proof fn lemma_filter_entries_identity(s: Seq<BookView>)
    requires
        forall|i: int| 0 <= i < s.len() ==> keeps_entry(#[trigger] s[i]),
    ensures
        filter_entries(s) == s,
    decreases s.len(),
{
    if s.len() > 0 {
        assert(forall|i: int|
            0 <= i < s.drop_first().len() ==> keeps_entry(#[trigger] s.drop_first()[i]));
        lemma_filter_entries_identity(s.drop_first());
        assert(seq![s[0]] + s.drop_first() =~= s);
    }
}

/// Aggregation idempotence: aggregating the aggregator's own output — one
/// chunk holding the final list — reproduces that list exactly; no further
/// merging, reordering or dropping occurs.
pub proof fn lemma_aggregate_idempotent(rs: Seq<Seq<BookView>>)
    ensures
        spec_aggregate(seq![spec_aggregate(rs)]) == spec_aggregate(rs),
{
    let flat = rs.flatten();
    lemma_sort_sorted(flat);
    let sorted = sort_books(flat);
    lemma_group_strict(sorted);
    let g = group_titles(sorted);
    let out = filter_entries(g);
    lemma_filter_entries_strict(g);
    lemma_filter_entries_keeps(g);

    assert(seq![out].len() == 1);
    seq![out].lemma_flatten_singleton();
    assert(seq![out].flatten() == out);
    assert(sorted_by_title(out));
    lemma_sort_identity(out);
    assert(forall|i: int| 0 <= i && i + 1 < out.len() ==> (#[trigger] out[i]).title != out[i
        + 1].title) by {
        assert(forall|i: int|
            0 <= i && i + 1 < out.len() ==> book_le(#[trigger] out[i], out[i + 1]) && out[i].title
                != out[i + 1].title);
    }
    lemma_group_identity(out);
    lemma_filter_entries_identity(out);
}

/// Author reconciliation: when one chunk found a title under author `a` and
/// another found the same title under author `b`, the aggregated result is
/// the single entry for that title whose author field joins the two, in
/// chunk order. (The two authors must differ — a repeated author is counted
/// once — and the joined field must not echo the title, or the defensive
/// filter would drop the entry.)
pub proof fn lemma_author_reconciliation(a: Seq<char>, b: Seq<char>, x: Seq<char>)
    requires
        a != b,
        a + author_sep() + b != x,
    ensures
        spec_aggregate(
            seq![seq![BookView { author: a, title: x }], seq![BookView { author: b, title: x }]],
        ) == seq![BookView { author: a + author_sep() + b, title: x }],
{
    let ba = BookView { author: a, title: x };
    let bb = BookView { author: b, title: x };
    let rs = seq![seq![ba], seq![bb]];
    let flat = seq![ba, bb];

    // flatten: the two singleton chunks in order
    assert(rs[0] == seq![ba]);
    assert(rs.drop_first() =~= seq![seq![bb]]);
    assert(seq![seq![bb]].len() == 1);
    seq![seq![bb]].lemma_flatten_singleton();
    assert(rs.flatten() == seq![ba] + seq![bb]);
    assert(seq![ba] + seq![bb] =~= flat);
    assert(rs.flatten() == flat);

    // sort: already in order, equal titles keep first-seen order
    lemma_str_le_refl(x);
    assert(flat.drop_last() =~= seq![ba]);
    assert(flat.last() == bb);
    assert(seq![ba].drop_last() =~= Seq::<BookView>::empty());
    assert(seq![ba].last() == ba);
    assert(sort_books(Seq::<BookView>::empty()) == Seq::<BookView>::empty());
    assert(insert_sorted(ba, Seq::<BookView>::empty()) == seq![ba]);
    assert(sort_books(seq![ba]) == seq![ba]);
    assert(seq![ba][0] == ba);
    assert(book_le(ba, bb));
    assert(seq![ba].drop_first() =~= Seq::<BookView>::empty());
    assert(insert_sorted(bb, Seq::<BookView>::empty()) == seq![bb]);
    assert(insert_sorted(bb, seq![ba]) == seq![ba] + insert_sorted(
        bb,
        Seq::<BookView>::empty(),
    ));
    assert(sort_books(flat) == seq![ba] + seq![bb]);
    assert(sort_books(flat) == flat);

    // group: one run of length two, authors deduplicated and joined
    assert(flat[0] == ba && flat[1] == bb);
    assert(flat.drop_first() =~= seq![bb]);
    assert(seq![bb].drop_first() =~= Seq::<BookView>::empty());
    assert(run_len(Seq::<BookView>::empty(), x) == 0);
    assert(run_len(seq![bb], x) == 1);
    assert(run_len(flat, x) == 2);
    let authors = flat.map_values(|v: BookView| v.author);
    assert(authors =~= seq![a, b]);
    assert(!Seq::<Seq<char>>::empty().contains(a));
    assert(seq![a, b].drop_first() =~= seq![b]);
    assert(seq![a, b][0] == a);
    assert(!seq![a].contains(b)) by {
        if seq![a].contains(b) {
            let w = choose|w: int| 0 <= w < 1 && seq![a][w] == b;
            assert(seq![a][0] == a);
        }
    }
    assert(Seq::<Seq<char>>::empty().push(a) =~= seq![a]);
    assert(seq![b].drop_first() =~= Seq::<Seq<char>>::empty());
    assert(dedup_seen(Seq::<Seq<char>>::empty(), seq![a].push(b)) == Seq::<Seq<char>>::empty());
    assert(dedup_seen(seq![b], seq![a]) == seq![b] + Seq::<Seq<char>>::empty());
    assert(dedup_seen(seq![a, b], Seq::<Seq<char>>::empty()) == seq![a] + (seq![b]
        + Seq::<Seq<char>>::empty()));
    assert(dedup_seen(seq![a, b], Seq::<Seq<char>>::empty()) =~~= seq![a, b]);
    assert(seq![a, b].len() == 2);
    assert(join_authors(seq![b]) == b);
    assert(join_authors(seq![a, b]) == a + author_sep() + join_authors(seq![a, b].drop_first()));
    assert(join_authors(seq![a, b]) == a + author_sep() + b);
    let entry = BookView { author: a + author_sep() + b, title: x };
    assert(flat.take(2) =~= flat);
    assert(run_entry(flat, x) == entry);
    assert(flat.skip(2) =~= Seq::<BookView>::empty());
    assert(group_titles(Seq::<BookView>::empty()) == Seq::<BookView>::empty());
    assert(group_titles(flat) == seq![entry] + Seq::<BookView>::empty());
    assert(seq![entry] + Seq::<BookView>::empty() =~= seq![entry]);

    // filter: the joined author differs from the title, so the entry stays
    assert(keeps_entry(entry));
    assert(seq![entry][0] == entry);
    assert(seq![entry].drop_first() =~= Seq::<BookView>::empty());
    assert(filter_entries(Seq::<BookView>::empty()) == Seq::<BookView>::empty());
    assert(filter_entries(seq![entry]) == seq![entry] + Seq::<BookView>::empty());
    assert(spec_aggregate(rs) =~= seq![entry]);
}

/// Aggregates per-chunk record lists, in any completion order, into the
/// final deduplicated-by-title list: flattened, title-sorted, one entry per
/// distinct title carrying that title's distinct authors comma-joined in
/// first-seen order, with self-titled entries dropped.
pub fn aggregate(results: &Vec<Vec<Book>>) -> (r: Vec<Book>)
    ensures
        r.deep_view() == spec_aggregate(results.deep_view()),
{
    let all = flatten_records(results);
    let sorted = sort_records(all);
    let grouped = group_records(&sorted);
    filter_self_titled(grouped)
}

} // verus!
