//! Characters, strings, and splitting a character sequence at a delimiter.

use vstd::prelude::*;

verus! {

use vstd::string::StrSliceExecFns;

/// The views of the elements of a sequence of viewable values.
pub open spec fn views<T: View>(s: Seq<T>) -> Seq<T::V> {
    s.map_values(|t: T| t@)
}

pub proof fn lemma_views_push<T: View>(s: Seq<T>, x: T)
    ensures
        views(s.push(x)) == views(s).push(x@),
{
    assert(views(s.push(x)) =~= views(s).push(x@));
}

/// Collects the characters of a string slice into a vector.
pub fn str_to_chars(s: &str) -> (r: Vec<char>)
    ensures
        r@ == s@,
{
    let n = s.unicode_len();
    let mut r: Vec<char> = Vec::new();
    let mut i: usize = 0;
    while i < n
        invariant
            n == s@.len(),
            i <= n,
            r@ == s@.take(i as int),
        decreases n - i,
    {
        r.push(s.get_char(i));
        proof {
            assert(r@ =~= s@.take(i + 1 as int));
        }
        i = i + 1;
    }
    proof {
        assert(s@.take(n as int) =~= s@);
    }
    r
}

/// Relies on `String::push`: appends exactly one character at the end.
#[verifier::external_body]
fn push_char(s: &mut String, c: char)
    ensures
        final(s)@ == old(s)@.push(c),
{
    s.push(c);
}

/// Builds a string out of a vector of characters.
pub fn chars_to_string(v: &Vec<char>) -> (r: String)
    ensures
        r@ == v@,
{
    let mut r = String::new();
    let mut i: usize = 0;
    while i < v.len()
        invariant
            i <= v@.len(),
            r@ == v@.take(i as int),
        decreases v@.len() - i,
    {
        push_char(&mut r, v[i]);
        proof {
            assert(r@ =~= v@.take(i + 1 as int));
        }
        i = i + 1;
    }
    proof {
        assert(v@.take(v@.len() as int) =~= v@);
    }
    r
}

/// The subrange of a character vector, as a new vector.
pub fn sub_chars(v: &Vec<char>, from: usize, to: usize) -> (r: Vec<char>)
    requires
        from <= to <= v@.len(),
    ensures
        r@ == v@.subrange(from as int, to as int),
{
    let mut r: Vec<char> = Vec::new();
    let mut i: usize = from;
    while i < to
        invariant
            from <= i <= to <= v@.len(),
            r@ == v@.subrange(from as int, i as int),
        decreases to - i,
    {
        r.push(v[i]);
        proof {
            assert(r@ =~= v@.subrange(from as int, i + 1 as int));
        }
        i = i + 1;
    }
    r
}

/// True when the delimiter does not occur in the sequence.
pub open spec fn no_delim(s: Seq<char>, d: char) -> bool {
    forall|i: int| 0 <= i < s.len() ==> s[i] != d
}

/// The segments of a character sequence split at a delimiter, in order.
/// There is always at least one segment; the delimiter occurs in none.
pub open spec fn spec_split(s: Seq<char>, d: char) -> Seq<Seq<char>>
    decreases s.len(),
{
    if s.len() == 0 {
        seq![Seq::<char>::empty()]
    } else if s[0] == d {
        seq![Seq::<char>::empty()] + spec_split(s.skip(1), d)
    } else {
        let rest = spec_split(s.skip(1), d);
        rest.update(0, seq![s[0]] + rest[0])
    }
}

pub proof fn lemma_split_nonempty(s: Seq<char>, d: char)
    ensures
        spec_split(s, d).len() >= 1,
    decreases s.len(),
{
    if s.len() != 0 {
        lemma_split_nonempty(s.skip(1), d);
    }
}

/// A sequence free of the delimiter splits into itself alone.
pub proof fn lemma_split_whole(s: Seq<char>, d: char)
    requires
        no_delim(s, d),
    ensures
        spec_split(s, d) == seq![s],
    decreases s.len(),
{
    if s.len() == 0 {
        assert(spec_split(s, d) =~~= seq![s]);
    } else {
        lemma_split_whole(s.skip(1), d);
        lemma_split_nonempty(s.skip(1), d);
        let rest = spec_split(s.skip(1), d);
        assert(rest[0] == s.skip(1));
        assert(seq![s[0]] + s.skip(1) =~= s);
        assert(spec_split(s, d) =~~= seq![s]);
    }
}

/// Splitting a sequence that begins with a delimiter-free segment, the
/// delimiter, and a remainder yields that segment followed by the split of
/// the remainder.
pub proof fn lemma_split_step(t: Seq<char>, u: Seq<char>, d: char)
    requires
        no_delim(t, d),
    ensures
        spec_split(t + seq![d] + u, d) == seq![t] + spec_split(u, d),
    decreases t.len(),
{
    let s = t + seq![d] + u;
    if t.len() == 0 {
        assert(s[0] == d);
        assert(s.skip(1) =~= u);
        assert(spec_split(s, d) =~~= seq![t] + spec_split(u, d));
    } else {
        assert(s[0] == t[0]);
        assert(s[0] != d);
        assert(s.skip(1) =~= t.skip(1) + seq![d] + u);
        assert(no_delim(t.skip(1), d));
        lemma_split_step(t.skip(1), u, d);
        lemma_split_nonempty(u, d);
        let rest = spec_split(s.skip(1), d);
        assert(rest == seq![t.skip(1)] + spec_split(u, d));
        assert(rest[0] == t.skip(1));
        assert(seq![s[0]] + t.skip(1) =~= t);
        assert(spec_split(s, d) =~~= seq![t] + spec_split(u, d));
    }
}

/// Splits a character vector at a delimiter; the result always holds at
/// least one (possibly empty) segment.
pub fn split_chars(v: &Vec<char>, d: char) -> (r: Vec<Vec<char>>)
    ensures
        views(r@) == spec_split(v@, d),
{
    let mut r: Vec<Vec<char>> = Vec::new();
    let mut cur: Vec<char> = Vec::new();
    let mut i: usize = 0;
    proof {
        assert(cur@ + v@.skip(0) =~= v@);
        assert(views(r@) =~= Seq::<Seq<char>>::empty());
        assert(views(r@) + spec_split(v@, d) =~= spec_split(v@, d));
    }
    while i < v.len()
        invariant
            i <= v@.len(),
            no_delim(cur@, d),
            views(r@) + spec_split(cur@ + v@.skip(i as int), d) == spec_split(v@, d),
        decreases v@.len() - i,
    {
        let c = v[i];
        proof {
            assert(cur@ + v@.skip(i as int) =~= cur@ + seq![v@[i as int]] + v@.skip(i + 1 as int));
        }
        if c == d {
            proof {
                lemma_split_step(cur@, v@.skip(i + 1 as int), d);
                lemma_views_push(r@, cur);
                assert(views(r@.push(cur)) + spec_split(v@.skip(i + 1 as int), d) =~= views(r@)
                    + (seq![cur@] + spec_split(v@.skip(i + 1 as int), d)));
            }
            r.push(cur);
            cur = Vec::new();
            proof {
                assert(cur@ + v@.skip(i + 1 as int) =~= v@.skip(i + 1 as int));
            }
        } else {
            proof {
                assert((cur@.push(c)) + v@.skip(i + 1 as int) =~= cur@ + seq![v@[i as int]]
                    + v@.skip(i + 1 as int));
            }
            cur.push(c);
        }
        i = i + 1;
    }
    proof {
        assert(cur@ + v@.skip(i as int) =~= cur@);
        lemma_split_whole(cur@, d);
        lemma_views_push(r@, cur);
        assert(views(r@.push(cur)) =~= views(r@) + seq![cur@]);
    }
    r.push(cur);
    r
}

} // verus!
