//! The spell checker: a frequency dictionary and a prefix index built from
//! a corpus, with candidate generation and correction.

use vstd::prelude::*;

verus! {

use vstd::hash_map::StringHashMap;
use crate::text::{views, spec_split, split_chars, str_to_chars, chars_to_string, sub_chars};
use crate::trie::{
    Node, trie_wf, has_path, chars_below, insert_from, strict_prefix_of, chars_after_insert,
};

/// The output marker for "no correction found".
pub open spec fn sentinel() -> Seq<char> {
    seq!['-']
}

/// A line with its trailing carriage return dropped.
pub open spec fn spec_chop(line: Seq<char>) -> Seq<char> {
    if line.len() > 0 && line.last() == '\r' {
        line.drop_last()
    } else {
        line
    }
}

/// The non-blank segments of a segment list, in order.
pub open spec fn nonempties(ts: Seq<Seq<char>>) -> Seq<Seq<char>>
    decreases ts.len(),
{
    if ts.len() == 0 {
        Seq::empty()
    } else {
        nonempties(ts.drop_last()) + if ts.last().len() > 0 {
            seq![ts.last()]
        } else {
            Seq::empty()
        }
    }
}

/// The non-blank tokens of one line, split at single spaces.
pub open spec fn line_tokens(line: Seq<char>) -> Seq<Seq<char>> {
    nonempties(spec_split(spec_chop(line), ' '))
}

/// The tokens of the first `n` lines, in reading order.
pub open spec fn tokens_of_lines(lines: Seq<Seq<char>>, n: int) -> Seq<Seq<char>>
    decreases n,
{
    if n <= 0 {
        Seq::empty()
    } else {
        tokens_of_lines(lines, n - 1) + line_tokens(lines[n - 1])
    }
}

/// All non-blank corpus tokens in reading order: the corpus splits into
/// lines at newlines, and each line into tokens at single spaces.
pub open spec fn spec_tokens(s: Seq<char>) -> Seq<Seq<char>> {
    tokens_of_lines(spec_split(s, '\n'), spec_split(s, '\n').len() as int)
}

/// How often each word occurs in a token list.
pub open spec fn spec_counts(toks: Seq<Seq<char>>) -> Map<Seq<char>, int>
    decreases toks.len(),
{
    if toks.len() == 0 {
        Map::empty()
    } else {
        let m = spec_counts(toks.drop_last());
        let w = toks.last();
        m.insert(
            w,
            if m.contains_key(w) {
                m[w] + 1int
            } else {
                1int
            },
        )
    }
}

/// Whether a character path is known after the given tokens were indexed:
/// the empty path always is, any other exactly when it is a prefix of some
/// token.
pub open spec fn path_known(toks: Seq<Seq<char>>, p: Seq<char>) -> bool {
    p.len() == 0 || exists|k: int| 0 <= k < toks.len() && p.is_prefix_of(#[trigger] toks[k])
}

/// The characters observed to follow the prefix `p` after the given tokens
/// were indexed in order: each token whose path strictly extends `p` and
/// enters new ground records its next character once, in first-insertion
/// order.
pub open spec fn obs_after(toks: Seq<Seq<char>>, p: Seq<char>) -> Seq<char>
    decreases toks.len(),
{
    if toks.len() == 0 {
        Seq::empty()
    } else {
        let prev = obs_after(toks.drop_last(), p);
        let w = toks.last();
        if strict_prefix_of(p, w) {
            if path_known(toks.drop_last(), p) {
                if prev.contains(w[p.len() as int]) {
                    prev
                } else {
                    prev.push(w[p.len() as int])
                }
            } else {
                seq![w[p.len() as int]]
            }
        } else {
            prev
        }
    }
}

/// The executable table agrees with the mathematical count map.
pub open spec fn counts_model(m: Map<Seq<char>, u64>, s: Map<Seq<char>, int>) -> bool {
    &&& forall|w: Seq<char>|
        #![trigger m.contains_key(w)]
        #![trigger s.contains_key(w)]
        m.contains_key(w) <==> s.contains_key(w)
    &&& forall|w: Seq<char>| #[trigger] m.contains_key(w) ==> m[w] as int == s[w]
}

/// Every count is positive, no count exceeds the number of tokens, and
/// every counted word occurs among the tokens.
pub proof fn lemma_counts_bounds(toks: Seq<Seq<char>>)
    ensures
        forall|w: Seq<char>| #[trigger]
            spec_counts(toks).contains_key(w) ==> 1 <= spec_counts(toks)[w] <= toks.len(),
        forall|w: Seq<char>| #[trigger]
            spec_counts(toks).contains_key(w) ==> exists|k: int| 0 <= k < toks.len() && toks[k]
                == w,
    decreases toks.len(),
{
    if toks.len() > 0 {
        lemma_counts_bounds(toks.drop_last());
        assert forall|w: Seq<char>| #[trigger] spec_counts(toks).contains_key(w) implies 1
            <= spec_counts(toks)[w] <= toks.len() by {
            let m = spec_counts(toks.drop_last());
            if w == toks.last() {
                if m.contains_key(w) {
                    assert(1 <= m[w] <= toks.len() - 1);
                }
            } else {
                assert(m.contains_key(w));
                assert(1 <= m[w] <= toks.len() - 1);
            }
        }
        assert forall|w: Seq<char>| #[trigger] spec_counts(toks).contains_key(w) implies exists|
            k: int,
        | 0 <= k < toks.len() && toks[k] == w by {
            if w == toks.last() {
                assert(toks[toks.len() - 1] == w);
            } else {
                assert(spec_counts(toks.drop_last()).contains_key(w));
                let k = choose|k: int|
                    0 <= k < toks.drop_last().len() && toks.drop_last()[k] == w;
                assert(toks[k] == w);
            }
        }
    }
}

/// Every word that stands in the token list is counted, with a positive
/// count: as soon as any token was counted at all, such a word is a
/// dictionary member and its probability (count over total) is positive.
pub proof fn lemma_seen_word_positive(toks: Seq<Seq<char>>, k: int)
    requires
        0 <= k < toks.len(),
    ensures
        spec_counts(toks).contains_key(toks[k]),
        spec_counts(toks)[toks[k]] >= 1,
    decreases toks.len(),
{
    if k < toks.len() - 1 {
        lemma_seen_word_positive(toks.drop_last(), k);
        assert(toks.drop_last()[k] == toks[k]);
    } else {
        lemma_counts_bounds(toks.drop_last());
        let m = spec_counts(toks.drop_last());
        if m.contains_key(toks[k]) {
            assert(m[toks[k]] >= 1);
        }
    }
}

/// A word that never occurs among the tokens is not counted at all: its
/// probability is exactly zero, whatever the total, and a total of zero
/// never forces a division.
pub proof fn lemma_unseen_word_absent(toks: Seq<Seq<char>>, w: Seq<char>)
    requires
        forall|k: int| 0 <= k < toks.len() ==> toks[k] != w,
    ensures
        !spec_counts(toks).contains_key(w),
    decreases toks.len(),
{
    if toks.len() > 0 {
        lemma_unseen_word_absent(toks.drop_last(), w);
        assert(toks[toks.len() - 1] != w);
    }
}

pub struct SpellChecker {
    pub counts: StringHashMap<u64>,
    pub cache: Vec<Node>,
    pub sum: u64,
}

impl SpellChecker {
    /// The dictionary is sound: the prefix index is well formed, every
    /// counted word has a positive count bounded by the total, and its full
    /// character path stands in the prefix index.
    pub open spec fn wf(&self) -> bool {
        &&& trie_wf(self.cache@)
        &&& forall|w: Seq<char>| #[trigger]
            self.counts@.contains_key(w) ==> 1 <= self.counts@[w] <= self.sum
        &&& forall|w: Seq<char>| #[trigger] self.counts@.contains_key(w) ==> has_path(
            self.cache@,
            w,
        )
    }

    /// Builds the dictionary from a corpus: counts every non-blank token
    /// and indexes its character path. The resulting counts, total, known
    /// paths and observed characters are all exactly determined by the
    /// corpus tokens.
    pub fn new(corpus: &str) -> (r: SpellChecker)
        ensures
            r.wf(),
            counts_model(r.counts@, spec_counts(spec_tokens(corpus@))),
            r.sum as int == spec_tokens(corpus@).len(),
            forall|p: Seq<char>|
                #[trigger] has_path(r.cache@, p) <==> path_known(spec_tokens(corpus@), p),
            forall|p: Seq<char>|
                #[trigger] chars_below(r.cache@, p) == obs_after(spec_tokens(corpus@), p),
    {
        let cs = str_to_chars(corpus);
        let lines = split_chars(&cs, '\n');
        let mut tokens: Vec<Vec<char>> = Vec::new();
        let mut li: usize = 0;
        proof {
            assert(views(tokens@) =~= tokens_of_lines(views(lines@), 0));
        }
        while li < lines.len()
            invariant
                li <= lines@.len(),
                views(lines@) == spec_split(corpus@, '\n'),
                views(tokens@) == tokens_of_lines(views(lines@), li as int),
            decreases lines@.len() - li,
        {
            let line = &lines[li];
            let keep: usize = if line.len() > 0 && line[line.len() - 1] == '\r' {
                line.len() - 1
            } else {
                line.len()
            };
            let chopped = sub_chars(line, 0, keep);
            proof {
                assert(chopped@ =~= spec_chop(line@));
            }
            let segs = split_chars(&chopped, ' ');
            let ghost svs = views(segs@);
            let mut sj: usize = 0;
            proof {
                assert(svs.take(0) =~= Seq::<Seq<char>>::empty());
                assert(views(tokens@) + nonempties(svs.take(0)) =~= views(tokens@));
            }
            while sj < segs.len()
                invariant
                    sj <= segs@.len(),
                    svs == views(segs@),
                    svs == spec_split(spec_chop(views(lines@)[li as int]), ' '),
                    li < lines@.len(),
                    views(lines@) == spec_split(corpus@, '\n'),
                    views(tokens@) == tokens_of_lines(views(lines@), li as int) + nonempties(
                        svs.take(sj as int),
                    ),
                decreases segs@.len() - sj,
            {
                let seg = &segs[sj];
                proof {
                    assert(svs.take(sj + 1 as int).drop_last() =~= svs.take(sj as int));
                    assert(svs.take(sj + 1 as int).last() == svs[sj as int]);
                }
                if seg.len() > 0 {
                    let copy = sub_chars(seg, 0, seg.len());
                    proof {
                        assert(copy@ =~= seg@);
                        crate::text::lemma_views_push(tokens@, copy);
                        assert(views(tokens@).push(copy@) =~= tokens_of_lines(
                            views(lines@),
                            li as int,
                        ) + nonempties(svs.take(sj + 1 as int)));
                    }
                    tokens.push(copy);
                } else {
                    proof {
                        assert(views(tokens@) =~= tokens_of_lines(views(lines@), li as int)
                            + nonempties(svs.take(sj + 1 as int)));
                    }
                }
                sj = sj + 1;
            }
            proof {
                assert(svs.take(segs@.len() as int) =~= svs);
                assert(views(tokens@) =~= tokens_of_lines(views(lines@), li + 1 as int));
            }
            li = li + 1;
        }
        proof {
            assert(views(tokens@) == spec_tokens(corpus@));
        }
        let ghost tvs = views(tokens@);
        let mut counts: StringHashMap<u64> = StringHashMap::new();
        let mut cache: Vec<Node> = Vec::new();
        let mut sum: u64 = 0;
        let mut i: usize = 0;
        proof {
            assert(tvs.take(0) =~= Seq::<Seq<char>>::empty());
            assert forall|p: Seq<char>| #[trigger] has_path(cache@, p) implies p.len() == 0 by {
                if p.len() > 0 {
                    crate::trie::lemma_subtrie_none(cache@, p);
                }
            }
            assert(trie_wf(cache@));
            assert forall|p: Seq<char>| #[trigger] chars_below(cache@, p) == obs_after(
                tvs.take(0),
                p,
            ) by {
                if p.len() == 0 {
                    assert(chars_below(cache@, p) =~= Seq::<char>::empty());
                } else {
                    crate::trie::lemma_subtrie_none(cache@, p);
                }
            }
        }
        while i < tokens.len()
            invariant
                i <= tokens@.len(),
                tvs == views(tokens@),
                counts_model(counts@, spec_counts(tvs.take(i as int))),
                sum as int == i,
                trie_wf(cache@),
                forall|p: Seq<char>|
                    #[trigger] has_path(cache@, p) <==> path_known(tvs.take(i as int), p),
                forall|p: Seq<char>|
                    #[trigger] chars_below(cache@, p) == obs_after(tvs.take(i as int), p),
            decreases tokens@.len() - i,
        {
            let t = &tokens[i];
            let s = chars_to_string(t);
            let prev: u64 = match counts.get(s.as_str()) {
                Some(v) => *v,
                None => 0,
            };
            proof {
                lemma_counts_bounds(tvs.take(i as int));
            }
            counts.insert(s, prev + 1);
            sum = sum + 1;
            let ghost oldcache = cache@;
            insert_from(&mut cache, t, 0);
            proof {
                let pre = tvs.take(i as int);
                let post = tvs.take(i + 1 as int);
                assert(post.drop_last() =~= pre);
                assert(post.last() == tvs[i as int]);
                assert(t@.skip(0) =~= t@);
                assert(t@ == tvs[i as int]);
                assert forall|p: Seq<char>| #[trigger] has_path(cache@, p) <==> path_known(
                    post,
                    p,
                ) by {
                    assert(has_path(cache@, p) == (has_path(oldcache, p) || p.is_prefix_of(t@)));
                    if p.len() > 0 {
                        if path_known(post, p) {
                            let k = choose|k: int| 0 <= k < post.len() && p.is_prefix_of(post[k]);
                            if k < pre.len() {
                                assert(pre[k] == post[k]);
                                assert(path_known(pre, p));
                            } else {
                                assert(post[k] == t@);
                            }
                        }
                        if path_known(pre, p) {
                            let k = choose|k: int| 0 <= k < pre.len() && p.is_prefix_of(pre[k]);
                            assert(post[k] == pre[k]);
                            assert(path_known(post, p));
                        }
                        if p.is_prefix_of(t@) {
                            assert(post[post.len() - 1] == t@);
                            assert(path_known(post, p));
                        }
                    }
                }
                assert forall|p: Seq<char>| #[trigger] chars_below(cache@, p) == obs_after(
                    post,
                    p,
                ) by {
                    if strict_prefix_of(p, t@) {
                        assert(chars_below(cache@, p) == chars_after_insert(
                            oldcache,
                            p,
                            t@[p.len() as int],
                        ));
                        assert(has_path(oldcache, p) == path_known(pre, p));
                        assert(chars_below(oldcache, p) == obs_after(pre, p));
                    } else {
                        assert(chars_below(cache@, p) == chars_below(oldcache, p));
                    }
                }
            }
            i = i + 1;
        }
        proof {
            assert(tvs.take(tokens@.len() as int) =~= tvs);
        }
        let r = SpellChecker { counts: counts, cache: cache, sum: sum };
        proof {
            lemma_counts_bounds(tvs);
            assert forall|w: Seq<char>| #[trigger] r.counts@.contains_key(w) implies has_path(
                r.cache@,
                w,
            ) by {
                assert(spec_counts(tvs).contains_key(w));
                let k = choose|k: int| 0 <= k < tvs.len() && tvs[k] == w;
                assert(w =~= tvs[k].subrange(0, w.len() as int));
                assert(w.is_prefix_of(tvs[k]));
                assert(path_known(tvs, w));
            }
        }
        r
    }

    /// Exact dictionary membership.
    pub fn wordp(&self, word: &String) -> (r: bool)
        ensures
            r == self.counts@.contains_key(word@),
    {
        self.counts.contains_key(word.as_str())
    }

    /// How often the word was counted; zero for a word never seen. The
    /// probability of a word is this count divided by the total.
    pub fn count(&self, word: &str) -> (r: u64)
        ensures
            r == word_count(self.counts@, word@),
    {
        match self.counts.get(word) {
            Some(v) => *v,
            None => 0,
        }
    }

    /// The number of tokens counted overall. When it is zero, nothing was
    /// counted and every word's probability is zero; no division happens
    /// here either way.
    pub fn total(&self) -> (r: u64)
        ensures
            r == self.sum,
    {
        self.sum
    }
}

/// The count a word scores with: its entry in the table, or zero when it
/// has none.
pub open spec fn word_count(m: Map<Seq<char>, u64>, w: Seq<char>) -> u64 {
    if m.contains_key(w) {
        m[w]
    } else {
        0
    }
}

/// Membership is owed to every counted word: when a checker's table models
/// the counts of some token list, each of those tokens is a dictionary
/// member and scores at least one, so its probability (count over total)
/// is positive as soon as the total is.
pub proof fn lemma_member_probability_positive(c: SpellChecker, toks: Seq<Seq<char>>, k: int)
    requires
        counts_model(c.counts@, spec_counts(toks)),
        0 <= k < toks.len(),
    ensures
        c.counts@.contains_key(toks[k]),
        word_count(c.counts@, toks[k]) >= 1,
{
    lemma_seen_word_positive(toks, k);
}

/// A word that stands nowhere in the token list is no dictionary member
/// and scores zero, whatever the total; a total of zero in particular
/// leaves every word at zero without any division.
pub proof fn lemma_unseen_probability_zero(c: SpellChecker, toks: Seq<Seq<char>>, w: Seq<char>)
    requires
        counts_model(c.counts@, spec_counts(toks)),
        forall|k: int| 0 <= k < toks.len() ==> toks[k] != w,
    ensures
        !c.counts@.contains_key(w),
        word_count(c.counts@, w) == 0,
{
    lemma_unseen_word_absent(toks, w);
}

/// What one distance-one candidate contributes to the correction pool: the
/// candidate itself when it is already a dictionary word, then all of its
/// own single-edit variants.
pub open spec fn pool_item(m: Map<Seq<char>, u64>, trie: Seq<Node>, c: Seq<char>) -> Seq<
    Seq<char>,
> {
    (if m.contains_key(c) {
        seq![c]
    } else {
        Seq::empty()
    }) + spec_candidates(trie, c)
}

/// The correction pool contributed by a list of distance-one candidates,
/// in order.
pub open spec fn pool_of(m: Map<Seq<char>, u64>, trie: Seq<Node>, cs: Seq<Seq<char>>) -> Seq<
    Seq<char>,
>
    decreases cs.len(),
{
    if cs.len() == 0 {
        Seq::empty()
    } else {
        pool_of(m, trie, cs.drop_last()) + pool_item(m, trie, cs.last())
    }
}

/// The full correction pool of a word: every variant within edit distance
/// two, plus each distance-one variant that is already a dictionary word.
pub open spec fn spec_pool(m: Map<Seq<char>, u64>, trie: Seq<Node>, w: Seq<char>) -> Seq<
    Seq<char>,
> {
    pool_of(m, trie, spec_candidates(trie, w))
}

/// Scanning the pool left to right, a candidate whose count strictly
/// exceeds the best count so far replaces the best; a word absent from the
/// dictionary counts zero and is never chosen.
pub open spec fn spec_select(
    m: Map<Seq<char>, u64>,
    pool: Seq<Seq<char>>,
    best: Seq<char>,
    bestc: u64,
) -> Seq<char>
    decreases pool.len(),
{
    if pool.len() == 0 {
        best
    } else {
        let c = pool[0];
        let cc = word_count(m, c);
        if cc > bestc {
            spec_select(m, pool.skip(1), c, cc)
        } else {
            spec_select(m, pool.skip(1), best, bestc)
        }
    }
}

/// The correction of a word against a dictionary: the highest-count
/// dictionary word of its pool, earliest first on ties, or the sentinel.
pub open spec fn spec_correct(m: Map<Seq<char>, u64>, trie: Seq<Node>, w: Seq<char>) -> Seq<
    char,
> {
    spec_select(m, spec_pool(m, trie, w), sentinel(), 0)
}

/// Whatever is selected is the starting value or a dictionary word.
pub proof fn lemma_select_valid(
    m: Map<Seq<char>, u64>,
    pool: Seq<Seq<char>>,
    best: Seq<char>,
    bestc: u64,
)
    ensures
        spec_select(m, pool, best, bestc) == best || m.contains_key(
            spec_select(m, pool, best, bestc),
        ),
    decreases pool.len(),
{
    if pool.len() > 0 {
        let c = pool[0];
        let cc = word_count(m, c);
        if cc > bestc {
            lemma_select_valid(m, pool.skip(1), c, cc);
        } else {
            lemma_select_valid(m, pool.skip(1), best, bestc);
        }
    }
}

/// When no pool entry is a dictionary word, the starting value survives.
pub proof fn lemma_select_all_absent(
    m: Map<Seq<char>, u64>,
    pool: Seq<Seq<char>>,
    best: Seq<char>,
    bestc: u64,
)
    requires
        forall|k: int| 0 <= k < pool.len() ==> !m.contains_key(#[trigger] pool[k]),
    ensures
        spec_select(m, pool, best, bestc) == best,
    decreases pool.len(),
{
    if pool.len() > 0 {
        assert(!m.contains_key(pool[0]));
        assert(forall|k: int|
            0 <= k < pool.skip(1).len() ==> !m.contains_key(#[trigger] pool.skip(1)[k]));
        lemma_select_all_absent(m, pool.skip(1), best, bestc);
    }
}

/// Correcting is deterministic: with the dictionary and prefix index
/// unchanged, correcting the same word twice yields the same result.
pub proof fn lemma_correct_deterministic(
    m: Map<Seq<char>, u64>,
    trie: Seq<Node>,
    w: Seq<char>,
    r1: Seq<char>,
    r2: Seq<char>,
)
    requires
        r1 == spec_correct(m, trie, w),
        r2 == spec_correct(m, trie, w),
    ensures
        r1 == r2,
{
}

/// A word whose pool holds no dictionary word at all is answered with the
/// sentinel.
pub proof fn lemma_no_valid_candidate_sentinel(
    m: Map<Seq<char>, u64>,
    trie: Seq<Node>,
    w: Seq<char>,
)
    requires
        forall|k: int|
            0 <= k < spec_pool(m, trie, w).len() ==> !m.contains_key(
                #[trigger] spec_pool(m, trie, w)[k],
            ),
    ensures
        spec_correct(m, trie, w) == sentinel(),
{
    lemma_select_all_absent(m, spec_pool(m, trie, w), sentinel(), 0);
}

/// One single-character edit: `mid` substituted for `cut` characters of
/// the word at position `i`.
pub open spec fn splice(w: Seq<char>, i: int, mid: Seq<char>, cut: int) -> Seq<char> {
    w.take(i) + mid + w.skip(i + cut)
}

/// The deletion candidate at a split position, when the suffix there is
/// non-empty.
pub open spec fn del_part(w: Seq<char>, i: int) -> Seq<Seq<char>> {
    if i < w.len() {
        seq![splice(w, i, Seq::empty(), 1)]
    } else {
        Seq::empty()
    }
}

/// The transposition candidate at a split position, when the suffix there
/// has at least two characters.
pub open spec fn trans_part(w: Seq<char>, i: int) -> Seq<Seq<char>> {
    if i + 1 < w.len() {
        seq![splice(w, i, seq![w[i + 1], w[i]], 2)]
    } else {
        Seq::empty()
    }
}

/// The replacement (where a suffix remains) and insertion candidates for
/// one observed character.
pub open spec fn one_choice(c: char, w: Seq<char>, i: int) -> Seq<Seq<char>> {
    (if i < w.len() {
        seq![splice(w, i, seq![c], 1)]
    } else {
        Seq::empty()
    }) + seq![splice(w, i, seq![c], 0)]
}

/// The replacement and insertion candidates for all observed characters,
/// in observation order.
pub open spec fn choice_parts(cs: Seq<char>, w: Seq<char>, i: int) -> Seq<Seq<char>>
    decreases cs.len(),
{
    if cs.len() == 0 {
        Seq::empty()
    } else {
        choice_parts(cs.drop_last(), w, i) + one_choice(cs.last(), w, i)
    }
}

/// All candidates produced at one split position: deletion, transposition,
/// then replacement and insertion for each character the prefix index has
/// observed after the prefix ending there.
pub open spec fn cand_at(trie: Seq<Node>, w: Seq<char>, i: int) -> Seq<Seq<char>> {
    del_part(w, i) + trans_part(w, i) + choice_parts(chars_below(trie, w.take(i)), w, i)
}

/// The candidates of the first `n` split positions, in order.
pub open spec fn cands_upto(trie: Seq<Node>, w: Seq<char>, n: int) -> Seq<Seq<char>>
    decreases n,
{
    if n <= 0 {
        Seq::empty()
    } else {
        cands_upto(trie, w, n - 1) + cand_at(trie, w, n - 1)
    }
}

/// All single-edit variants of a word, position by position, duplicates
/// kept, in generation order.
pub open spec fn spec_candidates(trie: Seq<Node>, w: Seq<char>) -> Seq<Seq<char>> {
    cands_upto(trie, w, w.len() as int + 1)
}

/// Builds one single-character edit of `w` as a fresh vector.
fn splice_chars(w: &Vec<char>, i: usize, mid: &Vec<char>, cut: usize) -> (r: Vec<char>)
    requires
        i + cut <= w@.len(),
    ensures
        r@ == splice(w@, i as int, mid@, cut as int),
{
    let wl = w.len();
    let mut r = sub_chars(w, 0, i);
    let mut k: usize = 0;
    while k < mid.len()
        invariant
            k <= mid@.len(),
            i + cut <= w@.len(),
            r@ == w@.take(i as int) + mid@.take(k as int),
        decreases mid@.len() - k,
    {
        r.push(mid[k]);
        proof {
            assert(r@ =~= w@.take(i as int) + mid@.take(k + 1 as int));
        }
        k = k + 1;
    }
    proof {
        assert(w@.subrange(0, i as int) =~= w@.take(i as int) + mid@.take(0));
        assert(mid@.take(mid@.len() as int) =~= mid@);
    }
    let mut k2: usize = i + cut;
    while k2 < w.len()
        invariant
            i + cut <= k2 <= w@.len() || k2 == i + cut,
            k2 >= i + cut,
            k2 <= w@.len() || k2 == i + cut,
            r@ == w@.take(i as int) + mid@ + w@.subrange(i + cut as int, k2 as int),
        decreases w@.len() - k2,
    {
        r.push(w[k2]);
        proof {
            assert(r@ =~= w@.take(i as int) + mid@ + w@.subrange(i + cut as int, k2 + 1 as int));
        }
        k2 = k2 + 1;
    }
    proof {
        assert(w@.take(i as int) + mid@ =~= w@.take(i as int) + mid@ + w@.subrange(
            i + cut as int,
            i + cut as int,
        ));
        if k2 > i + cut {
            assert(w@.subrange(i + cut as int, k2 as int) =~= w@.skip(i + cut as int));
        } else {
            assert(w@.subrange(i + cut as int, i + cut as int) =~= w@.skip(i + cut as int));
        }
        assert(r@ =~= splice(w@, i as int, mid@, cut as int));
    }
    r
}

impl SpellChecker {
    /// Appends every candidate of one split position, in generation order.
    fn push_cands_at(&self, w: &Vec<char>, i: usize, out: &mut Vec<Vec<char>>)
        requires
            self.wf(),
            i <= w@.len(),
        ensures
            views(final(out)@) == views(old(out)@) + cand_at(self.cache@, w@, i as int),
    {
        let ghost pre = views(old(out)@);
        let n = w.len();
        if i < n {
            let empty_mid: Vec<char> = Vec::new();
            let d = splice_chars(w, i, &empty_mid, 1);
            proof {
                crate::text::lemma_views_push(out@, d);
            }
            out.push(d);
        }
        proof {
            assert(views(out@) =~= pre + del_part(w@, i as int));
        }
        if n - i >= 2 {
            let mut two: Vec<char> = Vec::new();
            two.push(w[i + 1]);
            two.push(w[i]);
            proof {
                assert(two@ =~= seq![w@[i + 1 as int], w@[i as int]]);
            }
            let t = splice_chars(w, i, &two, 2);
            proof {
                crate::text::lemma_views_push(out@, t);
            }
            out.push(t);
        }
        proof {
            assert(views(out@) =~= pre + del_part(w@, i as int) + trans_part(w@, i as int));
        }
        let ghost base = views(out@);
        match crate::trie::chars_at(&self.cache, w, i) {
            None => {
                proof {
                    assert(chars_below(self.cache@, w@.take(i as int)) =~= Seq::<char>::empty());
                    assert(views(out@) =~= pre + cand_at(self.cache@, w@, i as int));
                }
            },
            Some(cs) => {
                let ghost csv = cs@;
                proof {
                    assert(csv == chars_below(self.cache@, w@.take(i as int)));
                    assert(choice_parts(csv.take(0), w@, i as int) =~= Seq::<Seq<char>>::empty());
                    assert(views(out@) =~= base + choice_parts(csv.take(0), w@, i as int));
                }
                let mut j: usize = 0;
                while j < cs.len()
                    invariant
                        j <= csv.len(),
                        csv == cs@,
                        i <= w@.len(),
                        n == w@.len(),
                        views(out@) == base + choice_parts(csv.take(j as int), w@, i as int),
                    decreases csv.len() - j,
                {
                    let mut one: Vec<char> = Vec::new();
                    one.push(cs[j]);
                    proof {
                        assert(one@ =~= seq![csv[j as int]]);
                        assert(csv.take(j + 1 as int).drop_last() =~= csv.take(j as int));
                        assert(csv.take(j + 1 as int).last() == csv[j as int]);
                    }
                    if i < n {
                        let rep = splice_chars(w, i, &one, 1);
                        proof {
                            crate::text::lemma_views_push(out@, rep);
                        }
                        out.push(rep);
                    }
                    let ins = splice_chars(w, i, &one, 0);
                    proof {
                        crate::text::lemma_views_push(out@, ins);
                    }
                    out.push(ins);
                    proof {
                        assert(views(out@) =~= base + choice_parts(
                            csv.take(j + 1 as int),
                            w@,
                            i as int,
                        ));
                    }
                    j = j + 1;
                }
                proof {
                    assert(csv.take(csv.len() as int) =~= csv);
                    assert(views(out@) =~= pre + cand_at(self.cache@, w@, i as int));
                }
            },
        }
    }

    /// All single-edit candidates of a word, as character vectors.
    fn candidates_chars(&self, w: &Vec<char>) -> (r: Vec<Vec<char>>)
        requires
            self.wf(),
        ensures
            views(r@) == spec_candidates(self.cache@, w@),
    {
        let n = w.len();
        let mut r: Vec<Vec<char>> = Vec::new();
        let mut i: usize = 0;
        proof {
            assert(views(r@) =~= cands_upto(self.cache@, w@, 0));
        }
        while i < n
            invariant
                i <= n,
                n == w@.len(),
                self.wf(),
                views(r@) == cands_upto(self.cache@, w@, i as int),
            decreases n - i,
        {
            self.push_cands_at(w, i, &mut r);
            i = i + 1;
        }
        self.push_cands_at(w, n, &mut r);
        r
    }

    /// Generates slices of a word taken at increasing indices: one pair of
    /// prefix and suffix for every split position, and gluing each pair
    /// back together restores the word.
    pub fn slices(&self, word: String) -> (r: Vec<(String, String)>)
        ensures
            r@.len() == word@.len() + 1,
            forall|i: int|
                0 <= i < r@.len() ==> #[trigger] r@[i].0@ == word@.take(i) && r@[i].1@
                    == word@.skip(i),
            forall|i: int| 0 <= i < r@.len() ==> #[trigger] (r@[i].0@ + r@[i].1@) == word@,
    {
        let n = word.as_str().unicode_len();
        let mut r: Vec<(String, String)> = Vec::new();
        let mut i: usize = 0;
        while i < n
            invariant
                i <= n,
                n == word@.len(),
                r@.len() == i,
                forall|k: int|
                    0 <= k < r@.len() ==> #[trigger] r@[k].0@ == word@.take(k) && r@[k].1@
                        == word@.skip(k),
            decreases n - i,
        {
            let pre = String::from_str(word.as_str().substring_char(0, i));
            let suf = String::from_str(word.as_str().substring_char(i, n));
            r.push((pre, suf));
            i = i + 1;
        }
        let pre = String::from_str(word.as_str().substring_char(0, n));
        let suf = String::from_str(word.as_str().substring_char(n, n));
        r.push((pre, suf));
        proof {
            assert forall|k: int| 0 <= k < r@.len() implies #[trigger] (r@[k].0@ + r@[k].1@)
                == word@ by {
                assert(r@[k].0@ + r@[k].1@ =~= word@);
            }
        }
        r
    }

    /// Returns a correction for an incorrect word: the dictionary word of
    /// highest frequency among all variants within edit distance two, ties
    /// broken in favour of the first one generated; the sentinel when no
    /// variant is a dictionary word.
    pub fn correct(&mut self, word: String) -> (r: String)
        requires
            old(self).wf(),
        ensures
            *final(self) == *old(self),
            r@ == spec_correct(old(self).counts@, old(self).cache@, word@),
            r@ == sentinel() || old(self).counts@.contains_key(r@),
            (forall|k: int|
                0 <= k < spec_pool(old(self).counts@, old(self).cache@, word@).len()
                    ==> !old(self).counts@.contains_key(
                    #[trigger] spec_pool(old(self).counts@, old(self).cache@, word@)[k],
                )) ==> r@ == sentinel(),
    {
        let ghost m = self.counts@;
        let ghost trie = self.cache@;
        let edit1 = self.candidates(word);
        let ghost e1v = views(edit1@);
        let mut edit2: Vec<String> = Vec::new();
        let mut ci: usize = 0;
        proof {
            assert(e1v.take(0) =~= Seq::<Seq<char>>::empty());
            assert(views(edit2@) =~= pool_of(m, trie, e1v.take(0)));
        }
        while ci < edit1.len()
            invariant
                ci <= e1v.len(),
                e1v == views(edit1@),
                *self == *old(self),
                self.wf(),
                m == self.counts@,
                trie == self.cache@,
                views(edit2@) == pool_of(m, trie, e1v.take(ci as int)),
            decreases e1v.len() - ci,
        {
            let c = &edit1[ci];
            let ghost before = views(edit2@);
            proof {
                assert(e1v.take(ci + 1 as int).drop_last() =~= e1v.take(ci as int));
                assert(e1v.take(ci + 1 as int).last() == e1v[ci as int]);
            }
            if self.wordp(c) {
                let kept = c.clone();
                proof {
                    crate::text::lemma_views_push(edit2@, kept);
                }
                edit2.push(kept);
            }
            proof {
                assert(views(edit2@) =~= before + (if m.contains_key(c@) {
                    seq![c@]
                } else {
                    Seq::<Seq<char>>::empty()
                }));
            }
            let mut more = self.candidates(c.clone());
            let ghost mid = views(edit2@);
            let ghost morev = views(more@);
            edit2.append(&mut more);
            proof {
                assert(views(edit2@) =~= mid + morev);
                assert(views(edit2@) =~= pool_of(m, trie, e1v.take(ci + 1 as int)));
            }
            ci = ci + 1;
        }
        proof {
            assert(e1v.take(e1v.len() as int) =~= e1v);
        }
        let ghost poolv = views(edit2@);
        let mut best = String::from_str("-");
        let mut bestc: u64 = 0;
        proof {
            reveal_strlit("-");
            assert(best@ =~= sentinel());
            assert(poolv.skip(0) =~= poolv);
        }
        let mut k: usize = 0;
        while k < edit2.len()
            invariant
                k <= poolv.len(),
                poolv == views(edit2@),
                *self == *old(self),
                m == self.counts@,
                spec_select(m, poolv, sentinel(), 0) == spec_select(
                    m,
                    poolv.skip(k as int),
                    best@,
                    bestc,
                ),
            decreases poolv.len() - k,
        {
            let cand = &edit2[k];
            let cc = self.count(cand.as_str());
            proof {
                assert(poolv.skip(k as int)[0] == poolv[k as int]);
                assert(poolv.skip(k as int).skip(1) =~= poolv.skip(k + 1 as int));
            }
            if cc > bestc {
                best = cand.clone();
                bestc = cc;
            }
            k = k + 1;
        }
        proof {
            assert(poolv.skip(poolv.len() as int) =~= Seq::<Seq<char>>::empty());
            assert(poolv == spec_pool(m, trie, word@));
            lemma_select_valid(m, poolv, sentinel(), 0);
            if forall|j: int|
                0 <= j < spec_pool(m, trie, word@).len() ==> !m.contains_key(
                    #[trigger] spec_pool(m, trie, word@)[j],
                ) {
                lemma_select_all_absent(m, poolv, sentinel(), 0);
            }
        }
        best
    }

    /// Builds a list of all the candidate words for the correction step:
    /// every single-edit variant of the word, in generation order, with
    /// replacement and insertion characters drawn from the prefix index.
    pub fn candidates(&self, word: String) -> (r: Vec<String>)
        requires
            self.wf(),
        ensures
            views(r@) == spec_candidates(self.cache@, word@),
    {
        let w = str_to_chars(word.as_str());
        let cand = self.candidates_chars(&w);
        let mut r: Vec<String> = Vec::new();
        let mut k: usize = 0;
        proof {
            assert(views(r@) =~= views(cand@).take(0));
        }
        while k < cand.len()
            invariant
                k <= cand@.len(),
                views(r@) == views(cand@).take(k as int),
                views(cand@) == spec_candidates(self.cache@, word@),
            decreases cand@.len() - k,
        {
            let s = chars_to_string(&cand[k]);
            proof {
                crate::text::lemma_views_push(r@, s);
                assert(views(r@).push(s@) =~= views(cand@).take(k + 1 as int));
            }
            r.push(s);
            k = k + 1;
        }
        proof {
            assert(views(cand@).take(cand@.len() as int) =~= views(cand@));
        }
        r
    }
}

} // verus!
