//! Searching and cutting character sequences.

use vstd::prelude::*;

verus! {

/// The position of the first occurrence of `c` in `s`, or `s.len()` when
/// `c` does not occur.
pub open spec fn first_index_of(s: Seq<char>, c: char) -> int
    decreases s.len(),
{
    if s.len() == 0 || s[0] == c {
        0
    } else {
        1 + first_index_of(s.drop_first(), c)
    }
}

/// `first_index_of` is the least position that holds `c`, and the length
/// where there is none.
pub proof fn lemma_first_index_of(s: Seq<char>, c: char)
    ensures
        0 <= first_index_of(s, c) <= s.len(),
        first_index_of(s, c) < s.len() ==> s[first_index_of(s, c)] == c,
        forall|i: int| 0 <= i < first_index_of(s, c) ==> s[i] != c,
    decreases s.len(),
{
    if s.len() == 0 || s[0] == c {
    } else {
        let t = s.drop_first();
        lemma_first_index_of(t, c);
        assert forall|i: int| 0 <= i < first_index_of(s, c) implies s[i] != c by {
            if i > 0 {
                assert(s[i] == t[i - 1]);
            }
        }
    }
}

/// Any position that is bounded as `first_index_of` is, holds `c` unless it
/// is the length, and has no `c` before it, is `first_index_of`.
pub proof fn lemma_first_index_of_unique(s: Seq<char>, c: char, n: int)
    requires
        0 <= n <= s.len(),
        n < s.len() ==> s[n] == c,
        forall|i: int| 0 <= i < n ==> s[i] != c,
    ensures
        first_index_of(s, c) == n,
{
    lemma_first_index_of(s, c);
}

/// Finds the first `c` in `v` at or after `from`.
pub fn find_char(v: &[char], from: usize, c: char) -> (at: usize)
    requires
        from <= v@.len(),
    ensures
        at == from + first_index_of(v@.subrange(from as int, v@.len() as int), c),
        from <= at <= v@.len(),
{
    let mut at: usize = from;
    while at < v.len() && v[at] != c
        invariant
            from <= at <= v@.len(),
            forall|i: int| from <= i < at ==> v@[i] != c,
        decreases v@.len() - at,
    {
        at += 1;
    }
    proof {
        lemma_first_index_of_unique(v@.subrange(from as int, v@.len() as int), c, at - from);
    }
    at
}

/// `raw` without the carriage return that ends it, if one does.
pub open spec fn without_carriage_return(raw: Seq<char>) -> Seq<char> {
    if raw.len() > 0 && raw.last() == '\r' {
        raw.drop_last()
    } else {
        raw
    }
}

/// The lines of a text. A line ends at a line feed, or at a carriage
/// return directly followed by one; neither belongs to the line. The end of
/// the text ends the last line too, so a text that ends in a line break has
/// no empty line after it.
pub open spec fn lines(s: Seq<char>) -> Seq<Seq<char>>
    decreases s.len(),
{
    if s.len() == 0 {
        Seq::empty()
    } else {
        let n = first_index_of(s, '\n');
        if 0 <= n < s.len() {
            seq![without_carriage_return(s.subrange(0, n))] + lines(
                s.subrange(n + 1, s.len() as int),
            )
        } else {
            seq![s]
        }
    }
}

/// A text has at most as many lines as characters.
pub proof fn lemma_lines_len(s: Seq<char>)
    ensures
        lines(s).len() <= s.len(),
        s.len() > 0 ==> lines(s).len() > 0,
    decreases s.len(),
{
    if s.len() > 0 {
        let n = first_index_of(s, '\n');
        lemma_first_index_of(s, '\n');
        if n < s.len() {
            lemma_lines_len(s.subrange(n + 1, s.len() as int));
        }
    }
}

/// Where the line that starts at `from` ends, and where the next one starts.
pub fn next_line(v: &[char], from: usize) -> (r: (usize, usize))
    requires
        from < v@.len(),
    ensures
        from <= r.0 <= r.1 <= v@.len(),
        from < r.1,
        lines(v@.subrange(from as int, v@.len() as int)).len() > 0,
        lines(v@.subrange(from as int, v@.len() as int))[0] == v@.subrange(from as int, r.0 as int),
        lines(v@.subrange(from as int, v@.len() as int)).skip(1) == lines(
            v@.subrange(r.1 as int, v@.len() as int),
        ),
{
    let ghost rest = v@.subrange(from as int, v@.len() as int);
    let feed = find_char(v, from, '\n');
    proof {
        lemma_first_index_of(rest, '\n');
    }
    if feed == v.len() {
        proof {
            assert(rest.subrange(0, rest.len() as int) =~= rest);
            assert(lines(rest) =~= seq![rest]);
            assert(lines(rest).skip(1) =~= Seq::<Seq<char>>::empty());
            assert(v@.subrange(v@.len() as int, v@.len() as int).len() == 0);
        }
        (feed, feed)
    } else {
        let end = if feed > from && v[feed - 1] == '\r' {
            feed - 1
        } else {
            feed
        };
        proof {
            let n = feed - from;
            let raw = rest.subrange(0, n);
            let tail = rest.subrange(n + 1, rest.len() as int);
            assert(raw =~= v@.subrange(from as int, feed as int));
            assert(tail =~= v@.subrange(feed + 1, v@.len() as int));
            assert(without_carriage_return(raw) =~= v@.subrange(from as int, end as int));
            assert(lines(rest) == seq![without_carriage_return(raw)] + lines(tail));
            assert(lines(rest).skip(1) =~= lines(tail));
        }
        (end, feed + 1)
    }
}

/// The characters of a string, in a vector.
pub fn chars_of(s: &str) -> (v: Vec<char>)
    ensures
        v@ == s@,
{
    let mut v: Vec<char> = Vec::new();
    for c in it: s.chars()
        invariant
            it.seq() == s@,
            v@ == it.seq().take(it.index() as int),
    {
        v.push(c);
    }
    v
}

/// `String::push` appends the character to the end of the string.
pub assume_specification[ String::push ](s: &mut String, ch: char)
    ensures
        final(s)@ == old(s)@.push(ch),
;

/// The string made of the characters of `v`.
pub fn string_of(v: &[char]) -> (s: String)
    ensures
        s@ == v@,
{
    let mut s = String::new();
    let mut i: usize = 0;
    while i < v.len()
        invariant
            i <= v@.len(),
            s@ == v@.take(i as int),
        decreases v@.len() - i,
    {
        s.push(v[i]);
        i += 1;
        assert(v@.take(i as int) =~= v@.take(i - 1).push(v@[i - 1]));
    }
    assert(v@.take(i as int) =~= v@);
    s
}

} // verus!
