//! General properties of the analyzer, stated and proved once: determinism,
//! behaviour on empty and on fully-stripped input, additivity of processing
//! across chunks split at line boundaries, and idempotence of the summary
//! projection.

use vstd::prelude::*;
use crate::analysis::{
    acc_rep, accumulate, bump, bump_rep, cap_u64, sat_inc, summary_matches, Analysis, AnalysisSummary,
};
use crate::normalize::{is_removed, is_space, split_ws, split_ws_acc, strip, tokens_of};

verus! {

/// Splitting distributes over a whitespace character standing between two
/// texts: the token being gathered ends at that character, and the right
/// part is split on its own.
pub proof fn lemma_split_at_space(s1: Seq<char>, s2: Seq<char>, cur: Seq<char>, c: char)
    requires
        is_space(c),
    ensures
        split_ws_acc(s1 + seq![c] + s2, cur) == split_ws_acc(s1, cur) + split_ws(s2),
    decreases s1.len(),
{
    let u = s1 + seq![c] + s2;
    if s1.len() == 0 {
        assert(u[0] == c);
        assert(u.drop_first() =~= s2);
        if cur.len() == 0 {
            assert(split_ws_acc(s1, cur) =~= Seq::<Seq<char>>::empty());
            assert(split_ws_acc(s1, cur) + split_ws(s2) =~= split_ws(s2));
        }
    } else {
        assert(u[0] == s1[0]);
        assert(u.drop_first() =~= s1.drop_first() + seq![c] + s2);
        if is_space(s1[0]) {
            if cur.len() == 0 {
                lemma_split_at_space(s1.drop_first(), s2, Seq::<char>::empty(), c);
            } else {
                lemma_split_at_space(s1.drop_first(), s2, Seq::<char>::empty(), c);
                assert(seq![cur] + (split_ws_acc(s1.drop_first(), Seq::<char>::empty()) + split_ws(
                    s2,
                )) =~= (seq![cur] + split_ws_acc(s1.drop_first(), Seq::<char>::empty()))
                    + split_ws(s2));
            }
        } else {
            lemma_split_at_space(s1.drop_first(), s2, cur.push(s1[0]), c);
        }
    }
}

/// Observing a concatenation of token lists is observing the first list,
/// then the second.
pub proof fn lemma_acc_rep_append(
    s: Seq<(Seq<char>, u64)>,
    t1: Seq<Seq<char>>,
    t2: Seq<Seq<char>>,
)
    ensures
        acc_rep(s, t1 + t2) == acc_rep(acc_rep(s, t1), t2),
    decreases t1.len(),
{
    if t1.len() == 0 {
        assert(t1 + t2 =~= t2);
    } else {
        assert((t1 + t2)[0] == t1[0]);
        assert((t1 + t2).drop_first() =~= t1.drop_first() + t2);
        lemma_acc_rep_append(bump_rep(s, t1[0]), t1.drop_first(), t2);
    }
}

/// The map-level counterpart of `lemma_acc_rep_append`.
pub proof fn lemma_accumulate_append(
    m: Map<Seq<char>, u64>,
    t1: Seq<Seq<char>>,
    t2: Seq<Seq<char>>,
)
    ensures
        accumulate(m, t1 + t2) == accumulate(accumulate(m, t1), t2),
    decreases t1.len(),
{
    if t1.len() == 0 {
        assert(t1 + t2 =~= t2);
    } else {
        assert((t1 + t2)[0] == t1[0]);
        assert((t1 + t2).drop_first() =~= t1.drop_first() + t2);
        lemma_accumulate_append(bump(m, t1[0]), t1.drop_first(), t2);
    }
}

/// Empty input: an empty chunk holds no tokens, and processing it leaves
/// any analyzer state exactly as it was.
pub proof fn lemma_empty_input(r: Seq<(Seq<char>, u64)>, m: Map<Seq<char>, u64>)
    ensures
        tokens_of(Seq::<char>::empty()) == Seq::<Seq<char>>::empty(),
        acc_rep(r, tokens_of(Seq::<char>::empty())) == r,
        accumulate(m, tokens_of(Seq::<char>::empty())) == m,
{
    let e = Seq::<char>::empty();
    reveal_with_fuel(Seq::<char>::filter, 1);
    assert(strip(e) =~= e);
    assert(split_ws(e) =~= Seq::<Seq<char>>::empty());
    assert(tokens_of(e) =~= Seq::<Seq<char>>::empty());
}

/// Determinism: the state after processing, at both model levels, is a
/// function of the prior state and the text alone — equal states fed equal
/// texts end equal.
pub proof fn lemma_process_deterministic(
    r1: Seq<(Seq<char>, u64)>,
    r2: Seq<(Seq<char>, u64)>,
    m1: Map<Seq<char>, u64>,
    m2: Map<Seq<char>, u64>,
    t1: Seq<char>,
    t2: Seq<char>,
)
    requires
        r1 == r2,
        m1 == m2,
        t1 == t2,
    ensures
        acc_rep(r1, tokens_of(t1)) == acc_rep(r2, tokens_of(t2)),
        accumulate(m1, tokens_of(t1)) == accumulate(m2, tokens_of(t2)),
{
}

/// Idempotent summary read: the promise `get_summary` makes determines the
/// summary completely, so two reads without an intervening mutation agree
/// in every field.
pub proof fn lemma_summary_read_idempotent(a: Analysis, s1: AnalysisSummary, s2: AnalysisSummary)
    requires
        summary_matches(a, s1),
        summary_matches(a, s2),
    ensures
        s1.words@ == s2.words@,
        s1.total_words == s2.total_words,
        s1.total_uniq_words == s2.total_uniq_words,
{
}

/// If the whole text is made of removed and whitespace characters, only
/// whitespace survives stripping.
proof fn lemma_strip_keeps_only_spaces(s: Seq<char>)
    requires
        forall|i: int| 0 <= i < s.len() ==> is_removed(#[trigger] s[i]) || is_space(s[i]),
    ensures
        forall|i: int| 0 <= i < strip(s).len() ==> is_space(#[trigger] strip(s)[i]),
    decreases s.len(),
{
    reveal(Seq::<char>::filter);
    if s.len() > 0 {
        let s0 = s.drop_last();
        assert(forall|j: int| 0 <= j < s0.len() ==> #[trigger] s0[j] == s[j]);
        lemma_strip_keeps_only_spaces(s0);
        if !is_removed(s.last()) {
            assert(strip(s) == strip(s0).push(s.last()));
            assert(is_space(s.last()));
        } else {
            assert(strip(s) == strip(s0));
        }
    }
}

/// Splitting a text of nothing but whitespace yields no tokens.
proof fn lemma_split_all_space(t: Seq<char>)
    requires
        forall|i: int| 0 <= i < t.len() ==> is_space(#[trigger] t[i]),
    ensures
        split_ws(t) == Seq::<Seq<char>>::empty(),
    decreases t.len(),
{
    if t.len() > 0 {
        let t1 = t.drop_first();
        assert(forall|j: int| 0 <= j < t1.len() ==> #[trigger] t1[j] == t[j + 1]);
        lemma_split_all_space(t1);
    }
}

/// Punctuation/digit stripping: a text whose every character belongs to
/// the removal class or to whitespace normalizes to no words at all.
pub proof fn lemma_stripped_text_yields_no_words(s: Seq<char>)
    requires
        forall|i: int| 0 <= i < s.len() ==> is_removed(#[trigger] s[i]) || is_space(s[i]),
    ensures
        tokens_of(s) == Seq::<Seq<char>>::empty(),
{
    lemma_strip_keeps_only_spaces(s);
    lemma_split_all_space(strip(s));
    assert(tokens_of(s) =~= Seq::<Seq<char>>::empty());
}

/// How many tokens of `toks` are exactly the word `w`.
pub open spec fn occurrences(toks: Seq<Seq<char>>, w: Seq<char>) -> nat
    decreases toks.len(),
{
    if toks.len() == 0 {
        0
    } else {
        (if toks[0] == w {
            1nat
        } else {
            0nat
        }) + occurrences(toks.drop_first(), w)
    }
}

/// The accumulator counts exactly: after observing `toks` on top of `m`, a
/// word's count is what it was before (zero if absent) plus its number of
/// occurrences among the tokens, held at `u64::MAX`; and a word is present
/// afterwards exactly when it was present before or occurs in `toks`.
pub proof fn lemma_accumulate_counts(m: Map<Seq<char>, u64>, toks: Seq<Seq<char>>, w: Seq<char>)
    ensures
        accumulate(m, toks).dom().contains(w) <==> (m.dom().contains(w) || occurrences(toks, w)
            > 0),
        accumulate(m, toks).dom().contains(w) ==> accumulate(m, toks)[w] == cap_u64(
            (if m.dom().contains(w) {
                m[w] as int
            } else {
                0
            }) + occurrences(toks, w),
        ),
    decreases toks.len(),
{
    if toks.len() > 0 {
        let m1 = bump(m, toks[0]);
        lemma_accumulate_counts(m1, toks.drop_first(), w);
        if toks[0] == w {
            assert(m1[w] == (if m.dom().contains(w) {
                sat_inc(m[w])
            } else {
                1u64
            }));
        }
    }
}

/// Additivity across calls: a text split at a line boundary and processed
/// in two calls leaves the analyzer exactly as the whole text in one call,
/// at both model levels.
pub proof fn lemma_additive_across_chunks(
    r: Seq<(Seq<char>, u64)>,
    m: Map<Seq<char>, u64>,
    a: Seq<char>,
    b: Seq<char>,
)
    ensures
        tokens_of(a + seq!['\n'] + b) == tokens_of(a) + tokens_of(b),
        acc_rep(r, tokens_of(a + seq!['\n'] + b)) == acc_rep(acc_rep(r, tokens_of(a)), tokens_of(b)),
        accumulate(m, tokens_of(a + seq!['\n'] + b)) == accumulate(
            accumulate(m, tokens_of(a)),
            tokens_of(b),
        ),
{
    let nl = seq!['\n'];
    let whole = a + nl + b;
    assert(is_space('\n'));
    assert(!is_removed('\n'));
    assert(strip(whole) == strip(a) + nl + strip(b)) by {
        assert(whole =~= (a + nl) + b);
        Seq::<char>::filter_distributes_over_add(a + nl, b, |c: char| !is_removed(c));
        Seq::<char>::filter_distributes_over_add(a, nl, |c: char| !is_removed(c));
        reveal_with_fuel(Seq::<char>::filter, 2);
        assert(nl.drop_last() =~= Seq::<char>::empty());
        assert(strip(nl) =~= nl);
    }
    lemma_split_at_space(strip(a), strip(b), Seq::<char>::empty(), '\n');
    assert(split_ws(strip(whole)) == split_ws(strip(a)) + split_ws(strip(b)));
    assert(tokens_of(whole) =~= tokens_of(a) + tokens_of(b));
    lemma_acc_rep_append(r, tokens_of(a), tokens_of(b));
    lemma_accumulate_append(m, tokens_of(a), tokens_of(b));
}

} // verus!
