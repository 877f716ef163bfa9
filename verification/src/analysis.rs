//! The word-frequency accumulator and its summary projection.
//!
//! The accumulator state is modelled two ways: as the ordered sequence of
//! `(word, count)` entries it stores (`rep`), and as the finite map from
//! normalized word to count that the sequence denotes (`view`). Every
//! operation is specified against both.

use vstd::prelude::*;
use vstd::set::axiom_set_insert_len;
use crate::normalize::{normalized_tokens, str_eq, tokens_of};

verus! {

/// A count one higher than `c`, held at the greatest representable value:
/// counts never silently wrap.
pub open spec fn sat_inc(c: u64) -> u64 {
    if c == u64::MAX {
        c
    } else {
        (c + 1) as u64
    }
}

/// The index of the first entry with key `w`, or -1 if no entry has it.
pub open spec fn find_idx(s: Seq<(Seq<char>, u64)>, w: Seq<char>) -> int
    decreases s.len(),
{
    if s.len() == 0 {
        -1
    } else if s[0].0 == w {
        0
    } else {
        let r = find_idx(s.drop_first(), w);
        if r < 0 {
            -1
        } else {
            r + 1
        }
    }
}

/// One observed occurrence of the word `w`: its entry's count rises by one
/// (saturating), or a fresh entry `(w, 1)` is appended.
pub open spec fn bump_rep(s: Seq<(Seq<char>, u64)>, w: Seq<char>) -> Seq<(Seq<char>, u64)> {
    let i = find_idx(s, w);
    if i < 0 {
        s.push((w, 1u64))
    } else {
        s.update(i, (w, sat_inc(s[i].1)))
    }
}

/// The entries after observing each token of `toks` in order.
pub open spec fn acc_rep(s: Seq<(Seq<char>, u64)>, toks: Seq<Seq<char>>) -> Seq<(Seq<char>, u64)>
    decreases toks.len(),
{
    if toks.len() == 0 {
        s
    } else {
        acc_rep(bump_rep(s, toks[0]), toks.drop_first())
    }
}

/// The finite map an entry sequence denotes: each key present maps to the
/// count of its first entry.
pub open spec fn map_of(s: Seq<(Seq<char>, u64)>) -> Map<Seq<char>, u64> {
    Map::new(|w: Seq<char>| find_idx(s, w) >= 0, |w: Seq<char>| s[find_idx(s, w)].1)
}

/// One observed occurrence of `w`, at the map level.
pub open spec fn bump(m: Map<Seq<char>, u64>, w: Seq<char>) -> Map<Seq<char>, u64> {
    if m.dom().contains(w) {
        m.insert(w, sat_inc(m[w]))
    } else {
        m.insert(w, 1u64)
    }
}

/// The map after observing each token of `toks` in order.
pub open spec fn accumulate(m: Map<Seq<char>, u64>, toks: Seq<Seq<char>>) -> Map<Seq<char>, u64>
    decreases toks.len(),
{
    if toks.len() == 0 {
        m
    } else {
        accumulate(bump(m, toks[0]), toks.drop_first())
    }
}

/// The exact (unbounded) sum of all counts in the entries.
pub open spec fn sum_counts(s: Seq<(Seq<char>, u64)>) -> int
    decreases s.len(),
{
    if s.len() == 0 {
        0
    } else {
        sum_counts(s.drop_last()) + s.last().1
    }
}

/// A non-negative total held at the greatest value a `u64` can carry.
pub open spec fn cap_u64(n: int) -> u64 {
    if n > u64::MAX {
        u64::MAX
    } else if n < 0 {
        0
    } else {
        n as u64
    }
}

/// Well-formed entries: keys are distinct and non-empty, counts are at
/// least one.
pub open spec fn entries_wf(s: Seq<(Seq<char>, u64)>) -> bool {
    &&& forall|i: int, j: int|
        0 <= i < j < s.len() ==> (#[trigger] s[i]).0 != (#[trigger] s[j]).0
    &&& forall|i: int| 0 <= i < s.len() ==> (#[trigger] s[i]).0.len() > 0
    &&& forall|i: int| 0 <= i < s.len() ==> (#[trigger] s[i]).1 >= 1
}

/// `find_idx` points at the first entry with key `w`, and is negative
/// exactly when no entry has that key.
pub proof fn lemma_find_idx(s: Seq<(Seq<char>, u64)>, w: Seq<char>)
    ensures
        find_idx(s, w) >= 0 ==> 0 <= find_idx(s, w) < s.len() && (#[trigger] s[find_idx(s, w)]).0
            == w && (forall|j: int| 0 <= j < find_idx(s, w) ==> (#[trigger] s[j]).0 != w),
        find_idx(s, w) < 0 ==> (forall|j: int| 0 <= j < s.len() ==> (#[trigger] s[j]).0 != w),
    decreases s.len(),
{
    if s.len() > 0 && s[0].0 != w {
        let s1 = s.drop_first();
        lemma_find_idx(s1, w);
        let r = find_idx(s1, w);
        assert(forall|j: int| 0 <= j < s1.len() ==> #[trigger] s1[j] == s[j + 1]);
        if r >= 0 {
            assert(find_idx(s, w) == r + 1);
            assert(s[r + 1] == s1[r]);
            assert forall|j: int| 0 <= j < r + 1 implies (#[trigger] s[j]).0 != w by {
                if j > 0 {
                    assert(s[j] == s1[j - 1]);
                }
            }
        } else {
            assert forall|j: int| 0 <= j < s.len() implies (#[trigger] s[j]).0 != w by {
                if j > 0 {
                    assert(s[j] == s1[j - 1]);
                }
            }
        }
    }
}

/// How `find_idx` looks at a sequence extended by one entry.
pub proof fn lemma_find_push(s: Seq<(Seq<char>, u64)>, p: (Seq<char>, u64), w: Seq<char>)
    ensures
        find_idx(s.push(p), w) == (if find_idx(s, w) >= 0 {
            find_idx(s, w)
        } else if p.0 == w {
            s.len() as int
        } else {
            -1
        }),
    decreases s.len(),
{
    let t = s.push(p);
    assert(t.len() == s.len() + 1);
    if s.len() == 0 {
        assert(t[0] == p);
        assert(t.drop_first() =~= Seq::<(Seq<char>, u64)>::empty());
        assert(find_idx(t.drop_first(), w) == -1);
        if p.0 == w {
            assert(find_idx(t, w) == 0);
        } else {
            assert(find_idx(t, w) == -1);
        }
        assert(find_idx(s, w) == -1);
    } else {
        assert(t[0] == s[0]);
        assert(t.drop_first() =~= s.drop_first().push(p));
        lemma_find_push(s.drop_first(), p, w);
        assert(find_idx(t.drop_first(), w) == find_idx(s.drop_first().push(p), w));
        if s[0].0 == w {
            assert(find_idx(t, w) == 0);
            assert(find_idx(s, w) == 0);
        } else {
            let r1 = find_idx(s.drop_first(), w);
            assert(find_idx(s, w) == (if r1 < 0 { -1 } else { r1 + 1 }));
            let rt = find_idx(t.drop_first(), w);
            assert(find_idx(t, w) == (if rt < 0 { -1 } else { rt + 1 }));
        }
    }
}

/// Replacing one entry by another with the same key leaves `find_idx`
/// unchanged for every key.
pub proof fn lemma_find_update(s: Seq<(Seq<char>, u64)>, i: int, p: (Seq<char>, u64), w: Seq<char>)
    requires
        0 <= i < s.len(),
        p.0 == s[i].0,
    ensures
        find_idx(s.update(i, p), w) == find_idx(s, w),
    decreases s.len(),
{
    let t = s.update(i, p);
    if i == 0 {
        assert(t[0] == p);
        assert(t.drop_first() =~= s.drop_first());
    } else {
        assert(t[0] == s[0]);
        assert(t.drop_first() =~= s.drop_first().update(i - 1, p));
        if s[0].0 != w {
            lemma_find_update(s.drop_first(), i - 1, p, w);
        }
    }
}

/// Observing a word preserves well-formedness of the entries and acts on
/// the denoted map exactly as `bump` does.
pub proof fn lemma_bump_map(s: Seq<(Seq<char>, u64)>, w: Seq<char>)
    requires
        entries_wf(s),
        w.len() > 0,
    ensures
        entries_wf(bump_rep(s, w)),
        map_of(bump_rep(s, w)) == bump(map_of(s), w),
{
    lemma_find_idx(s, w);
    let i = find_idx(s, w);
    let t = bump_rep(s, w);
    if i < 0 {
        assert(forall|k: Seq<char>|
            find_idx(s.push((w, 1u64)), k) == (if find_idx(s, k) >= 0 {
                find_idx(s, k)
            } else if k == w {
                s.len() as int
            } else {
                -1
            })) by {
            assert forall|k: Seq<char>| true implies find_idx(s.push((w, 1u64)), k) == (if find_idx(
                s,
                k,
            ) >= 0 {
                find_idx(s, k)
            } else if k == w {
                s.len() as int
            } else {
                -1
            }) by {
                lemma_find_push(s, (w, 1u64), k);
            }
        }
        assert(entries_wf(t)) by {
            assert(forall|j: int| 0 <= j < s.len() ==> (#[trigger] t[j]) == s[j]);
            assert(t[s.len() as int] == (w, 1u64));
            assert forall|a: int, b: int| 0 <= a < b < t.len() implies (#[trigger] t[a]).0 != (
            #[trigger] t[b]).0 by {
                if b == s.len() as int {
                    assert(s[a].0 != w);
                }
            }
        }
        assert(map_of(t) =~= bump(map_of(s), w)) by {
            assert forall|k: Seq<char>| #[trigger] map_of(t).dom().contains(k) <==> bump(
                map_of(s),
                w,
            ).dom().contains(k) by {
                lemma_find_idx(t, k);
            }
            assert forall|k: Seq<char>|
                map_of(t).dom().contains(k) implies #[trigger] map_of(t)[k] == bump(map_of(s), w)[k]
                by {
                if k == w {
                    assert(find_idx(t, k) == s.len() as int);
                } else {
                    assert(find_idx(t, k) == find_idx(s, k));
                    lemma_find_idx(s, k);
                    let f = find_idx(s, k);
                    assert(f >= 0);
                    assert(0 <= f < s.len());
                    assert(t[f] == s[f]);
                }
            }
        }
    } else {
        let p = (w, sat_inc(s[i].1));
        assert(s[i].0 == w);
        assert(forall|k: Seq<char>| find_idx(s.update(i, p), k) == find_idx(s, k)) by {
            assert forall|k: Seq<char>| true implies find_idx(s.update(i, p), k) == find_idx(s, k)
                by {
                lemma_find_update(s, i, p, k);
            }
        }
        assert(entries_wf(t)) by {
            assert(forall|j: int| 0 <= j < t.len() ==> (#[trigger] t[j]).0 == s[j].0);
            assert(t[i].1 == sat_inc(s[i].1));
        }
        assert(map_of(t) =~= bump(map_of(s), w)) by {
            assert(map_of(s).dom().contains(w));
            assert(map_of(s)[w] == s[i].1);
            assert forall|k: Seq<char>|
                map_of(t).dom().contains(k) implies #[trigger] map_of(t)[k] == bump(map_of(s), w)[k]
                by {
                assert(find_idx(t, k) == find_idx(s, k));
                lemma_find_idx(s, k);
                let f = find_idx(s, k);
                assert(f >= 0);
                assert(0 <= f < s.len());
                if k == w {
                    assert(f == i) by {
                        lemma_find_idx(s, w);
                    }
                    assert(t[i] == p);
                } else {
                    assert(s[f].0 == k);
                    assert(f != i);
                    assert(t[f] == s[f]);
                }
            }
        }
    }
}

/// Distinct keys make the denoted map exactly as large as the entry
/// sequence.
pub proof fn lemma_map_of_len(s: Seq<(Seq<char>, u64)>)
    requires
        forall|i: int, j: int| 0 <= i < j < s.len() ==> (#[trigger] s[i]).0 != (#[trigger] s[j]).0,
    ensures
        map_of(s).dom().finite(),
        map_of(s).dom().len() == s.len(),
    decreases s.len(),
{
    if s.len() == 0 {
        assert(map_of(s).dom() =~= Set::<Seq<char>>::empty());
    } else {
        let s0 = s.drop_last();
        let last = s.last();
        assert(s =~= s0.push(last));
        assert(forall|j: int| 0 <= j < s0.len() ==> #[trigger] s0[j] == s[j]);
        lemma_map_of_len(s0);
        assert(forall|k: Seq<char>|
            #[trigger] find_idx(s, k) == find_idx(s0.push(last), k));
        assert forall|k: Seq<char>| true implies #[trigger] find_idx(s, k) == (if find_idx(s0, k)
            >= 0 {
            find_idx(s0, k)
        } else if last.0 == k {
            s0.len() as int
        } else {
            -1
        }) by {
            lemma_find_push(s0, last, k);
        }
        assert(map_of(s).dom() =~= map_of(s0).dom().insert(last.0));
        assert(!map_of(s0).dom().contains(last.0)) by {
            lemma_find_idx(s0, last.0);
            if find_idx(s0, last.0) >= 0 {
                assert(s[find_idx(s0, last.0)].0 == s[s.len() - 1].0);
            }
        }
        axiom_set_insert_len(map_of(s0).dom(), last.0);
    }
}

/// Every count a well-formed entry sequence holds is non-negative, so the
/// exact sum is too.
pub proof fn lemma_sum_counts_nonneg(s: Seq<(Seq<char>, u64)>)
    ensures
        sum_counts(s) >= 0,
    decreases s.len(),
{
    if s.len() > 0 {
        lemma_sum_counts_nonneg(s.drop_last());
    }
}

/// The word-frequency analyzer: owns the mapping from normalized word to
/// occurrence count, accumulated monotonically over every chunk of text
/// processed so far.
pub struct Analysis {
    words: Vec<(String, u64)>,
}

/// An immutable point-in-time projection of the analyzer state: a copy of
/// the word/count entries, the sum of all counts, and the number of
/// distinct words.
pub struct AnalysisSummary {
    pub words: Vec<(String, u64)>,
    pub total_words: u64,
    pub total_uniq_words: usize,
}

/// The model of a list of stored entries: each `(word, count)` pair with
/// the word as its character sequence.
pub open spec fn rep_of(entries: Seq<(String, u64)>) -> Seq<(Seq<char>, u64)> {
    entries.map_values(|p: (String, u64)| (p.0@, p.1))
}

impl View for Analysis {
    type V = Map<Seq<char>, u64>;

    open spec fn view(&self) -> Map<Seq<char>, u64> {
        map_of(self.rep())
    }
}

impl Analysis {
    /// The stored entries: `String` keys with their counts, in insertion
    /// order.
    pub closed spec fn entries(self) -> Seq<(String, u64)> {
        self.words@
    }

    /// The stored entries at the model level.
    pub open spec fn rep(self) -> Seq<(Seq<char>, u64)> {
        rep_of(self.entries())
    }

    /// The analyzer invariant: entry keys are distinct and non-empty,
    /// counts are at least one.
    pub open spec fn wf(self) -> bool {
        entries_wf(self.rep())
    }

    /// A fresh analyzer with no words observed.
    pub fn new() -> (a: Analysis)
        ensures
            a.wf(),
            a.rep() == Seq::<(Seq<char>, u64)>::empty(),
            a@ == Map::<Seq<char>, u64>::empty(),
    {
        let a = Analysis { words: Vec::new() };
        proof {
            assert(a.rep() =~= Seq::<(Seq<char>, u64)>::empty());
            assert forall|w: Seq<char>| !(#[trigger] map_of(a.rep()).dom().contains(w)) by {
                assert(find_idx(a.rep(), w) == -1);
            }
            assert(a@ =~= Map::<Seq<char>, u64>::empty());
        }
        a
    }

    /// The index of the entry for `w`, if one exists.
    fn find(&self, w: &str) -> (r: Option<usize>)
        ensures
            match r {
                Option::Some(i) => find_idx(self.rep(), w@) == i && i < self.rep().len(),
                Option::None => find_idx(self.rep(), w@) < 0,
            },
    {
        let ghost s = self.rep();
        let mut i: usize = 0;
        while i < self.words.len()
            invariant
                i <= self.words@.len(),
                s == self.rep(),
                forall|j: int| 0 <= j < i ==> (#[trigger] s[j]).0 != w@,
            decreases self.words@.len() - i,
        {
            if str_eq(self.words[i].0.as_str(), w) {
                proof {
                    assert(s[i as int].0 == w@);
                    lemma_find_idx(s, w@);
                    let f = find_idx(s, w@);
                    if f < 0 {
                        assert(s[i as int].0 != w@);
                    } else if f < i {
                        assert(s[f].0 != w@);
                    } else if f > i {
                        assert(s[i as int].0 != w@);
                    }
                }
                return Option::Some(i);
            }
            i = i + 1;
        }
        proof {
            lemma_find_idx(s, w@);
            let f = find_idx(s, w@);
            if f >= 0 {
                assert(s[f].0 != w@);
            }
        }
        Option::None
    }

    /// Record one observed occurrence of the normalized word `w`.
    fn bump(&mut self, w: String)
        requires
            old(self).wf(),
            w@.len() > 0,
        ensures
            final(self).wf(),
            final(self).rep() == bump_rep(old(self).rep(), w@),
            final(self)@ == bump(old(self)@, w@),
    {
        proof {
            lemma_bump_map(old(self).rep(), w@);
        }
        let ghost orep = self.rep();
        let r = self.find(w.as_str());
        match r {
            Option::Some(i) => {
                let c = self.words[i].1;
                let c2 = if c == u64::MAX {
                    c
                } else {
                    c + 1
                };
                let k = self.words[i].0.clone();
                proof {
                    lemma_find_idx(orep, w@);
                    assert(orep[i as int].0 == w@);
                    assert(k@ == w@);
                }
                self.words[i] = (k, c2);
                proof {
                    assert(self.rep() =~= bump_rep(orep, w@));
                }
            },
            Option::None => {
                self.words.push((w, 1));
                proof {
                    assert(self.rep() =~= bump_rep(orep, w@));
                }
            },
        }
    }

    /// Feed one chunk of raw text to the analyzer: every normalized word
    /// of the chunk is counted, on top of everything already observed. A
    /// chunk may span several lines; line endings are whitespace, so the
    /// words of each line are counted in order, line by line.
    pub fn process_sample(&mut self, sample_text: &str)
        requires
            old(self).wf(),
        ensures
            final(self).wf(),
            final(self).rep() == acc_rep(old(self).rep(), tokens_of(sample_text@)),
            final(self)@ == accumulate(old(self)@, tokens_of(sample_text@)),
    {
        let toks = normalized_tokens(sample_text);
        let ghost tseq = tokens_of(sample_text@);
        let ghost orep = old(self).rep();
        let ghost omap = old(self)@;
        proof {
            assert(tseq.subrange(0, tseq.len() as int) =~= tseq);
        }
        let mut i: usize = 0;
        while i < toks.len()
            invariant
                i <= toks@.len(),
                toks@.map_values(|t: String| t@) == tseq,
                forall|k: int| 0 <= k < toks@.len() ==> (#[trigger] toks@[k])@.len() > 0,
                self.wf(),
                acc_rep(self.rep(), tseq.subrange(i as int, tseq.len() as int)) == acc_rep(
                    orep,
                    tseq,
                ),
                accumulate(self@, tseq.subrange(i as int, tseq.len() as int)) == accumulate(
                    omap,
                    tseq,
                ),
            decreases toks@.len() - i,
        {
            let ghost rem = tseq.subrange(i as int, tseq.len() as int);
            proof {
                assert(toks@.map_values(|t: String| t@)[i as int] == toks@[i as int]@);
                assert(rem[0] == tseq[i as int]);
                assert(rem.drop_first() =~= tseq.subrange(i as int + 1, tseq.len() as int));
            }
            let w = toks[i].clone();
            proof {
                assert(w@ == tseq[i as int]);
            }
            self.bump(w);
            i = i + 1;
        }
        proof {
            assert(tseq.subrange(i as int, tseq.len() as int) =~= Seq::<Seq<char>>::empty());
        }
    }

    /// The sum of every stored count, held at `u64::MAX` if the exact sum
    /// would not fit.
    fn get_total_words_even_repeated(&self) -> (t: u64)
        ensures
            t == cap_u64(sum_counts(self.rep())),
    {
        let ghost s = self.rep();
        let mut t: u64 = 0;
        let mut i: usize = 0;
        proof {
            assert(s.subrange(0, 0) =~= Seq::<(Seq<char>, u64)>::empty());
        }
        while i < self.words.len()
            invariant
                i <= self.words@.len(),
                s == self.rep(),
                t == cap_u64(sum_counts(s.subrange(0, i as int))),
            decreases self.words@.len() - i,
        {
            let c = self.words[i].1;
            proof {
                let pre = s.subrange(0, i as int);
                let pre1 = s.subrange(0, i as int + 1);
                assert(pre1.drop_last() =~= pre);
                assert(pre1.last() == s[i as int]);
                assert(s[i as int].1 == c);
                lemma_sum_counts_nonneg(pre);
                assert(sum_counts(pre1) == sum_counts(pre) + c);
            }
            if c > u64::MAX - t {
                t = u64::MAX;
            } else {
                t = t + c;
            }
            i = i + 1;
        }
        proof {
            assert(s.subrange(0, s.len() as int) =~= s);
        }
        t
    }

    /// The number of distinct normalized words observed so far.
    pub fn distinct_words(&self) -> (n: usize)
        requires
            self.wf(),
        ensures
            n == self.rep().len(),
            n == self@.dom().len(),
    {
        proof {
            lemma_map_of_len(self.rep());
        }
        self.words.len()
    }

    /// The count recorded for one normalized word, zero if the word has
    /// not been observed.
    pub fn count_of(&self, word: &str) -> (c: u64)
        requires
            self.wf(),
        ensures
            c == (if self@.dom().contains(word@) {
                self@[word@]
            } else {
                0u64
            }),
    {
        let r = self.find(word);
        match r {
            Option::Some(i) => self.words[i].1,
            Option::None => 0,
        }
    }

    /// A snapshot of the analyzer state: the entries copied, the number of
    /// distinct words, and the capped sum of all counts. Reading a summary
    /// does not change the analyzer.
    pub fn get_summary(&self) -> (s: AnalysisSummary)
        requires
            self.wf(),
        ensures
            summary_matches(*self, s),
    {
        let mut words: Vec<(String, u64)> = Vec::new();
        let mut i: usize = 0;
        proof {
            assert(words@ =~= self.words@.subrange(0, 0));
        }
        while i < self.words.len()
            invariant
                i <= self.words@.len(),
                words@ == self.words@.subrange(0, i as int),
            decreases self.words@.len() - i,
        {
            let k = self.words[i].0.clone();
            let c = self.words[i].1;
            proof {
                assert(k == self.words@[i as int].0);
            }
            words.push((k, c));
            proof {
                assert(self.words@[i as int] == (
                    self.words@[i as int].0,
                    self.words@[i as int].1,
                ));
                assert(words@ =~= self.words@.subrange(0, i as int + 1));
            }
            i = i + 1;
        }
        proof {
            assert(self.words@.subrange(0, self.words@.len() as int) =~= self.words@);
            lemma_map_of_len(self.rep());
        }
        let total_words = self.get_total_words_even_repeated();
        let total_uniq_words = words.len();
        AnalysisSummary { words, total_words, total_uniq_words }
    }
}

impl AnalysisSummary {
    /// The summary's entries at the model level.
    pub open spec fn rep(self) -> Seq<(Seq<char>, u64)> {
        rep_of(self.words@)
    }
}

/// Exactly what `get_summary` promises of a summary `s` taken from the
/// analyzer state `a`: every field is a function of that state.
pub open spec fn summary_matches(a: Analysis, s: AnalysisSummary) -> bool {
    &&& s.words@ == a.entries()
    &&& s.rep() == a.rep()
    &&& map_of(s.rep()) == a@
    &&& s.total_uniq_words == a.rep().len()
    &&& s.total_uniq_words == a@.dom().len()
    &&& s.total_words == cap_u64(sum_counts(a.rep()))
}

} // verus!
