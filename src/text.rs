//! Character-level helpers shared by the codecs and the search filter.
//!
//! Text is split into lines as Rust's `str::lines` does: at each `'\n'`,
//! dropping a `'\r'` just before it; a final line ending is optional, and
//! an empty text has no lines.
use vstd::prelude::*;

verus! {

/// Whether `s` holds no line feed.
pub open spec fn single_line(s: Seq<char>) -> bool {
    forall|i: int| 0 <= i < s.len() ==> s[i] != '\n'
}

/// Whether `s` ends with a carriage return.
pub open spec fn ends_with_cr(s: Seq<char>) -> bool {
    s.len() > 0 && s.last() == '\r'
}

/// `s` without a final carriage return.
pub open spec fn strip_cr(s: Seq<char>) -> Seq<char> {
    if ends_with_cr(s) {
        s.drop_last()
    } else {
        s
    }
}

/// The pieces of `s` between line feeds: one more than the line feeds.
pub open spec fn segments(s: Seq<char>) -> Seq<Seq<char>>
    decreases s.len(),
{
    if s.len() == 0 {
        seq![Seq::empty()]
    } else {
        let p = segments(s.drop_last());
        if s.last() == '\n' {
            p.push(Seq::empty())
        } else {
            p.update(p.len() - 1, p.last().push(s.last()))
        }
    }
}

/// The lines of `s`: each piece that a line feed ends loses a final
/// carriage return, and an empty final piece is no line.
pub open spec fn lines(s: Seq<char>) -> Seq<Seq<char>> {
    let g = segments(s);
    let n = g.len() as int;
    if g[n - 1].len() == 0 {
        Seq::new((n - 1) as nat, |i: int| strip_cr(g[i]))
    } else {
        Seq::new(n as nat, |i: int| if i < n - 1 { strip_cr(g[i]) } else { g[i] })
    }
}

/// The lines of `ls` joined with nothing between them.
pub open spec fn concat(ls: Seq<Seq<char>>) -> Seq<char>
    decreases ls.len(),
{
    if ls.len() == 0 {
        Seq::empty()
    } else {
        concat(ls.drop_last()) + ls.last()
    }
}

/// Whether `needle` occurs in `hay` as a contiguous piece.
pub open spec fn contains(hay: Seq<char>, needle: Seq<char>) -> bool {
    exists|i: int|
        0 <= i && i + needle.len() <= hay.len() && #[trigger] hay.subrange(i, i + needle.len())
            == needle
}

/// Whether `s` begins with `p`.
pub open spec fn has_prefix(s: Seq<char>, p: Seq<char>) -> bool {
    p.len() <= s.len() && s.subrange(0, p.len() as int) == p
}

pub proof fn lemma_segments_nonempty(s: Seq<char>)
    ensures
        segments(s).len() >= 1,
    decreases s.len(),
{
    if s.len() > 0 {
        lemma_segments_nonempty(s.drop_last());
    }
}

/// A text without line feeds is one piece.
pub proof fn lemma_segments_single(a: Seq<char>)
    requires
        single_line(a),
    ensures
        segments(a) == seq![a],
    decreases a.len(),
{
    if a.len() > 0 {
        lemma_segments_single(a.drop_last());
        assert(a.drop_last().push(a.last()) =~= a);
        assert(segments(a) =~= seq![a]);
    } else {
        assert(a =~= Seq::<char>::empty());
    }
}

/// A line feed after a text without line feeds splits off that text.
pub proof fn lemma_segments_split(a: Seq<char>, b: Seq<char>)
    requires
        single_line(a),
    ensures
        segments(a + seq!['\n'] + b) == seq![a] + segments(b),
    decreases b.len(),
{
    let s = a + seq!['\n'] + b;
    if b.len() == 0 {
        lemma_segments_single(a);
        assert(s.drop_last() =~= a);
        assert(segments(s) =~= seq![a] + segments(b));
    } else {
        let b0 = b.drop_last();
        lemma_segments_split(a, b0);
        lemma_segments_nonempty(b0);
        assert(s.drop_last() =~= a + seq!['\n'] + b0);
        assert(segments(s) =~= seq![a] + segments(b));
    }
}

/// Splitting off the first line of a text.
pub proof fn lemma_lines_split(a: Seq<char>, b: Seq<char>)
    requires
        single_line(a),
    ensures
        lines(a + seq!['\n'] + b) == seq![strip_cr(a)] + lines(b),
{
    lemma_segments_split(a, b);
    lemma_segments_nonempty(b);
    assert(lines(a + seq!['\n'] + b) =~= seq![strip_cr(a)] + lines(b));
}

/// A text without line feeds and without a final carriage return is its
/// own only line, or no line when it is empty.
pub proof fn lemma_lines_single(a: Seq<char>)
    requires
        single_line(a),
    ensures
        a.len() == 0 ==> lines(a) == Seq::<Seq<char>>::empty(),
        a.len() > 0 ==> lines(a) == seq![a],
        concat(lines(a)) == a,
{
    lemma_segments_single(a);
    if a.len() == 0 {
        assert(lines(a) =~= Seq::<Seq<char>>::empty());
        assert(a =~= Seq::<char>::empty());
    } else {
        assert(lines(a) =~= seq![a]);
        assert(seq![a].drop_last() =~= Seq::<Seq<char>>::empty());
        assert(concat(seq![a]) == concat(Seq::<Seq<char>>::empty()) + a);
        assert(Seq::<char>::empty() + a =~= a);
    }
}

/// Relies on `String::push`: appends one character at the end.
#[verifier::external_body]
pub(crate) fn push_char(s: &mut String, c: char)
    ensures
        final(s)@ == old(s)@.push(c),
{
    s.push(c)
}

/// `s` without a final carriage return.
pub fn strip_cr_string(s: &str) -> (r: String)
    ensures
        r@ == strip_cr(s@),
{
    let n = s.unicode_len();
    if n > 0 && s.get_char(n - 1) == '\r' {
        String::from_str(s.substring_char(0, n - 1))
    } else {
        String::from_str(s)
    }
}

/// The lines of `s`, as `str::lines` gives them.
pub fn split_lines(s: &str) -> (r: Vec<String>)
    ensures
        r.len() == lines(s@).len(),
        forall|i: int| 0 <= i < r.len() ==> #[trigger] r[i]@ == lines(s@)[i],
{
    let n = s.unicode_len();
    let mut done: Vec<String> = Vec::new();
    let mut cur = String::new();
    let mut i: usize = 0;
    proof {
        assert(s@.subrange(0, 0) =~= Seq::<char>::empty());
    }
    while i < n
        invariant
            n == s@.len(),
            i <= n,
            done.len() + 1 == segments(s@.subrange(0, i as int)).len(),
            forall|j: int|
                0 <= j < done.len() ==> #[trigger] done[j]@ == strip_cr(
                    segments(s@.subrange(0, i as int))[j],
                ),
            cur@ == segments(s@.subrange(0, i as int)).last(),
        decreases n - i,
    {
        let c = s.get_char(i);
        proof {
            assert(s@.subrange(0, i + 1).drop_last() =~= s@.subrange(0, i as int));
        }
        if c == '\n' {
            let line = strip_cr_string(cur.as_str());
            done.push(line);
            cur = String::new();
        } else {
            push_char(&mut cur, c);
        }
        i = i + 1;
    }
    proof {
        assert(s@.subrange(0, n as int) =~= s@);
    }
    if cur.as_str().unicode_len() > 0 {
        done.push(cur);
    }
    proof {
        assert forall|i: int| 0 <= i < done.len() implies #[trigger] done[i]@ == lines(s@)[i] by {
        }
    }
    done
}

/// Whether `needle` occurs in `hay`.
pub fn contains_str(hay: &str, needle: &str) -> (r: bool)
    ensures
        r == contains(hay@, needle@),
{
    let h = hay.unicode_len();
    let m = needle.unicode_len();
    if m > h {
        return false;
    }
    if m == 0 {
        proof {
            assert(hay@.subrange(0, 0 + needle@.len() as int) =~= needle@);
        }
        return true;
    }
    let mut i: usize = 0;
    while i <= h - m
        invariant
            h == hay@.len(),
            m == needle@.len(),
            1 <= m <= h,
            i <= h - m + 1,
            forall|k: int| 0 <= k < i ==> #[trigger] hay@.subrange(k, k + m) != needle@,
        decreases h - m + 1 - i,
    {
        let mut j: usize = 0;
        let mut same = true;
        while j < m
            invariant
                h == hay@.len(),
                m == needle@.len(),
                i + m <= h,
                j <= m,
                same ==> forall|t: int| 0 <= t < j ==> hay@[i + t] == needle@[t],
                !same ==> hay@.subrange(i as int, i + m) != needle@,
            decreases m - j,
        {
            if same && hay.get_char(i + j) != needle.get_char(j) {
                same = false;
                proof {
                    assert(hay@.subrange(i as int, i + m)[j as int] != needle@[j as int]);
                }
            }
            j = j + 1;
        }
        if same {
            proof {
                assert(hay@.subrange(i as int, i + m) =~= needle@);
            }
            return true;
        }
        i = i + 1;
    }
    false
}

/// Whether `s` begins with `p`.
pub fn starts_with_str(s: &str, p: &str) -> (r: bool)
    ensures
        r == has_prefix(s@, p@),
{
    let n = s.unicode_len();
    let m = p.unicode_len();
    if m > n {
        return false;
    }
    let mut j: usize = 0;
    while j < m
        invariant
            n == s@.len(),
            m == p@.len(),
            m <= n,
            j <= m,
            forall|t: int| 0 <= t < j ==> s@[t] == p@[t],
        decreases m - j,
    {
        if s.get_char(j) != p.get_char(j) {
            proof {
                assert(s@.subrange(0, m as int)[j as int] != p@[j as int]);
            }
            return false;
        }
        j = j + 1;
    }
    proof {
        assert(s@.subrange(0, m as int) =~= p@);
    }
    true
}

} // verus!
