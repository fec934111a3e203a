//! Whitespace-respecting chunker.
//!
//! Splits a cleaned transcript into an ordered run of segments, none longer
//! than the window, cutting at whitespace wherever the window holds any:
//! the proposed boundary is pulled back to the nearest preceding whitespace
//! unless a whitespace character already stands on either side of it. A
//! window without usable whitespace (one word longer than the window) is cut
//! hard at the window size, so the walk always moves forward.

use vstd::prelude::*;

verus! {

/// Whitespace at which a segment boundary may fall.
pub open spec fn is_break_char(c: char) -> bool {
    c == ' ' || c == '\n'
}

/// Executable twin of `is_break_char`.
pub fn break_char(c: char) -> (r: bool)
    ensures
        r == is_break_char(c),
{
    c == ' ' || c == '\n'
}

/// The largest index in `[1, i]` holding a break character of `s`, or zero
/// when there is none.
pub open spec fn last_break_at_or_before(s: Seq<char>, i: nat) -> nat
    recommends
        i < s.len(),
    decreases i,
{
    if i == 0 {
        0
    } else if is_break_char(s[i as int]) {
        i
    } else {
        last_break_at_or_before(s, (i - 1) as nat)
    }
}

/// Where the first segment of `s` ends under window `win`, for `s` longer
/// than the window: at the window, unless a word straddles that boundary
/// and the window holds a usable earlier break to pull back to.
pub open spec fn split_point(s: Seq<char>, win: nat) -> nat
    recommends
        1 <= win < s.len(),
{
    if win >= 1 && (is_break_char(s[win - 1]) || is_break_char(s[win as int])) {
        win
    } else {
        let p = last_break_at_or_before(s, (win - 1) as nat);
        if 1 <= p < win {
            p
        } else {
            win
        }
    }
}

/// The ordered segments of `s` under window `win`. An empty input has no
/// segments; an input within the window is one segment; a longer input is
/// cut at `split_point` and the rest chunked in turn.
pub open spec fn spec_chunks(s: Seq<char>, win: nat) -> Seq<Seq<char>>
    recommends
        win >= 1,
    decreases s.len(),
{
    if win == 0 || s.len() == 0 {
        Seq::empty()
    } else if s.len() <= win {
        seq![s]
    } else {
        let cut = split_point(s, win) as int;
        seq![s.subrange(0, cut)] + spec_chunks(s.skip(cut), win)
    }
}

proof fn lemma_split_point_range(s: Seq<char>, win: nat)
    requires
        1 <= win < s.len(),
    ensures
        1 <= split_point(s, win) <= win,
{
}

proof fn lemma_last_break_in_range(s: Seq<char>, i: nat)
    requires
        i < s.len(),
    ensures
        last_break_at_or_before(s, i) <= i,
        last_break_at_or_before(s, i) >= 1 ==> is_break_char(
            s[last_break_at_or_before(s, i) as int],
        ),
        forall|j: int|
            last_break_at_or_before(s, i) < j <= i ==> !is_break_char(#[trigger] s[j]),
    decreases i,
{
    if i > 0 && !is_break_char(s[i as int]) {
        lemma_last_break_in_range(s, (i - 1) as nat);
    }
}

/// Chunking round trip: concatenating the segments in order reproduces the
/// input exactly — no character is lost or duplicated — and an empty input
/// yields an empty run of segments.
pub proof fn lemma_chunks_concat(s: Seq<char>, win: nat)
    requires
        win >= 1,
    ensures
        spec_chunks(s, win).flatten() == s,
        s.len() == 0 ==> spec_chunks(s, win) == Seq::<Seq<char>>::empty(),
    decreases s.len(),
{
    if s.len() == 0 {
        assert(spec_chunks(s, win).flatten() =~= s);
    } else if s.len() <= win {
        seq![s].lemma_flatten_singleton();
    } else {
        let cut = split_point(s, win) as int;
        lemma_split_point_range(s, win);
        let head = s.subrange(0, cut);
        let rest = spec_chunks(s.skip(cut), win);
        lemma_chunks_concat(s.skip(cut), win);
        let chunks = seq![head] + rest;
        assert(spec_chunks(s, win) == chunks);
        assert(chunks.drop_first() =~= rest);
        assert(chunks[0] == head);
        assert(chunks.flatten() == head + rest.flatten());
        assert(head + s.skip(cut) =~= s);
    }
}

/// Chunk size bound: every segment is nonempty and no segment is longer
/// than the window — a word longer than the window is cut hard at exactly
/// the window size.
pub proof fn lemma_chunks_bounded(s: Seq<char>, win: nat)
    requires
        win >= 1,
    ensures
        forall|i: int|
            0 <= i < spec_chunks(s, win).len() ==> 1 <= (#[trigger] spec_chunks(s, win)[i]).len()
                <= win,
    decreases s.len(),
{
    if s.len() == 0 {
    } else if s.len() <= win {
    } else {
        let cut = split_point(s, win) as int;
        lemma_split_point_range(s, win);
        let head = s.subrange(0, cut);
        let rest = spec_chunks(s.skip(cut), win);
        let chunks = seq![head] + rest;
        assert(spec_chunks(s, win) == chunks);
        lemma_chunks_bounded(s.skip(cut), win);
        assert forall|i: int| 0 <= i < spec_chunks(s, win).len() implies 1 <= (
        #[trigger] spec_chunks(s, win)[i]).len() <= win by {
            if i > 0 {
                assert(chunks[i] == rest[i - 1]);
            } else {
                assert(chunks[0] == head);
            }
        }
    }
}

/// The first segment of a nonempty input starts with the input's first
/// character.
proof fn lemma_chunks_first(s: Seq<char>, win: nat)
    requires
        win >= 1,
        s.len() > 0,
    ensures
        spec_chunks(s, win).len() > 0,
        spec_chunks(s, win)[0].len() > 0,
        spec_chunks(s, win)[0][0] == s[0],
{
    lemma_chunks_bounded(s, win);
}

/// Word-boundary splits: between two neighbouring segments, either a break
/// character ends the first or one begins the second — except at a hard
/// cut, where the first segment fills the whole window and holds no usable
/// break after its first character.
pub proof fn lemma_chunks_word_boundaries(s: Seq<char>, win: nat)
    requires
        win >= 1,
    ensures
        forall|i: int|
            0 <= i && i + 1 < spec_chunks(s, win).len() ==> {
                let a = #[trigger] spec_chunks(s, win)[i];
                let b = spec_chunks(s, win)[i + 1];
                is_break_char(a[a.len() - 1]) || is_break_char(b[0]) || (a.len() == win
                    && forall|j: int| 1 <= j < a.len() ==> !is_break_char(#[trigger] a[j]))
            },
    decreases s.len(),
{
    if s.len() > win {
        let cut = split_point(s, win) as int;
        lemma_split_point_range(s, win);
        let head = s.subrange(0, cut);
        let tail = s.skip(cut);
        let rest = spec_chunks(tail, win);
        let chunks = seq![head] + rest;
        assert(spec_chunks(s, win) == chunks);
        lemma_chunks_word_boundaries(tail, win);
        lemma_chunks_bounded(s, win);
        lemma_chunks_first(tail, win);
        lemma_last_break_in_range(s, (win - 1) as nat);
        assert forall|i: int| 0 <= i && i + 1 < spec_chunks(s, win).len() implies {
            let a = #[trigger] spec_chunks(s, win)[i];
            let b = spec_chunks(s, win)[i + 1];
            is_break_char(a[a.len() - 1]) || is_break_char(b[0]) || (a.len() == win
                && forall|j: int| 1 <= j < a.len() ==> !is_break_char(#[trigger] a[j]))
        } by {
            let a = spec_chunks(s, win)[i];
            let b = spec_chunks(s, win)[i + 1];
            if i == 0 {
                assert(chunks[0] == head);
                assert(a == head);
                assert(chunks[1] == rest[0]);
                assert(b == spec_chunks(tail, win)[0]);
                assert(b[0] == tail[0]);
                assert(tail[0] == s[cut]);
                if cut == win {
                    if !(is_break_char(s[win - 1]) || is_break_char(s[win as int])) {
                        // hard cut: no usable break inside the window
                        let p = last_break_at_or_before(s, (win - 1) as nat);
                        assert(p == 0 || p >= win);
                        assert(forall|j: int|
                            1 <= j < a.len() ==> !is_break_char(#[trigger] a[j])) by {
                            assert(forall|j: int|
                                0 < j <= win - 1 ==> !is_break_char(#[trigger] s[j]));
                            assert(forall|j: int| 1 <= j < a.len() ==> a[j] == s[j]);
                        }
                    } else {
                        assert(a[a.len() - 1] == s[win - 1]);
                    }
                } else {
                    // pulled back to a break: the next segment begins with it
                    assert(is_break_char(s[cut]));
                }
            } else {
                assert(chunks[i] == rest[i - 1]);
                assert(chunks[i + 1] == rest[i]);
            }
        }
    }
}

/// Splits `text` into the ordered run of segments that `spec_chunks`
/// describes: concatenating them restores `text`, none is longer than
/// `win`, and cuts fall at whitespace wherever the window holds any.
pub fn chunk_text(text: &str, win: usize) -> (segs: Vec<String>)
    requires
        win >= 1,
    ensures
        segs.deep_view() == spec_chunks(text@, win as nat),
{
    let mut segs: Vec<String> = Vec::new();
    let n = text.unicode_len();
    let mut pos: usize = 0;
    proof {
        assert(text@.skip(0) =~= text@);
        assert(segs.deep_view() =~= Seq::<Seq<char>>::empty());
    }
    while pos < n
        invariant
            win >= 1,
            pos <= n,
            n == text@.len(),
            spec_chunks(text@, win as nat) == segs.deep_view() + spec_chunks(
                text@.skip(pos as int),
                win as nat,
            ),
        decreases n - pos,
    {
        let ghost rem = text@.skip(pos as int);
        let remaining = n - pos;
        let cut: usize;
        if remaining <= win {
            cut = remaining;
        } else {
            let c_last = text.get_char(pos + win - 1);
            let c_next = text.get_char(pos + win);
            if break_char(c_last) || break_char(c_next) {
                cut = win;
                assert(split_point(rem, win as nat) == win) by {
                    assert(rem[win - 1] == text@[pos + win - 1]);
                    assert(rem[win as int] == text@[pos + win]);
                };
            } else {
                // No break beside the boundary: pull back to the nearest
                // usable break inside the window, or cut hard at the window.
                let mut j: usize = 1;
                let mut found: usize = 0;
                while j < win
                    invariant
                        1 <= j <= win,
                        win < rem.len(),
                        rem == text@.skip(pos as int),
                        pos < n,
                        pos + win < n,
                        n == text@.len(),
                        found == last_break_at_or_before(rem, (j - 1) as nat),
                        found < win,
                    decreases win - j,
                {
                    if break_char(text.get_char(pos + j)) {
                        found = j;
                    }
                    proof {
                        assert(rem[j as int] == text@[pos + j]);
                        assert(last_break_at_or_before(rem, j as nat) == if is_break_char(
                            rem[j as int],
                        ) {
                            j as nat
                        } else {
                            last_break_at_or_before(rem, (j - 1) as nat)
                        });
                    }
                    j = j + 1;
                }
                proof {
                    assert(rem[win - 1] == text@[pos + win - 1]);
                    assert(rem[win as int] == text@[pos + win]);
                }
                if found >= 1 {
                    cut = found;
                    assert(split_point(rem, win as nat) == found);
                } else {
                    cut = win;
                    assert(last_break_at_or_before(rem, (win - 1) as nat) == 0);
                    assert(split_point(rem, win as nat) == win);
                }
            }
        }
        let seg = text.substring_char(pos, pos + cut).to_owned();
        proof {
            assert(seg@ =~= rem.subrange(0, cut as int));
            assert(rem.skip(cut as int) =~= text@.skip(pos + cut));
            if remaining <= win {
                assert(spec_chunks(rem, win as nat) == seq![rem]);
                assert(seg@ =~= rem);
            } else {
                assert(spec_chunks(rem, win as nat) == seq![rem.subrange(0, cut as int)]
                    + spec_chunks(rem.skip(cut as int), win as nat));
            }
        }
        let ghost old_segs = segs.deep_view();
        segs.push(seg);
        proof {
            assert(segs.deep_view() =~= old_segs + seq![seg@]);
            assert(old_segs + seq![seg@] + spec_chunks(text@.skip(pos + cut), win as nat)
                =~= old_segs + (seq![seg@] + spec_chunks(text@.skip(pos + cut), win as nat)));
        }
        pos = pos + cut;
    }
    proof {
        assert(text@.skip(n as int) =~= Seq::<char>::empty());
        assert(segs.deep_view() + Seq::<Seq<char>>::empty() =~= segs.deep_view());
    }
    segs
}

} // verus!
