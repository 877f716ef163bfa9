//! The normalization / tokenization rule: which characters are stripped,
//! where a line of text is split, and how tokens are case-folded.

use vstd::prelude::*;
use vstd::string::StrSliceExecFns;

verus! {

/// Characters removed from the text before it is split into tokens: a fixed
/// ASCII punctuation/symbol class together with the apostrophe, every ASCII
/// digit, and the double quote. All other characters (letters, whitespace,
/// hyphens, non-ASCII punctuation) pass through untouched.
pub open spec fn is_removed(c: char) -> bool {
    ||| c == '!'
    ||| c == '@'
    ||| c == '#'
    ||| c == '$'
    ||| c == '%'
    ||| c == '^'
    ||| c == '&'
    ||| c == '*'
    ||| c == '('
    ||| c == ')'
    ||| c == '_'
    ||| c == '+'
    ||| c == '='
    ||| c == '['
    ||| c == ']'
    ||| c == '{'
    ||| c == '}'
    ||| c == ';'
    ||| c == ':'
    ||| c == '\\'
    ||| c == '|'
    ||| c == ','
    ||| c == '.'
    ||| c == '<'
    ||| c == '>'
    ||| c == '?'
    ||| c == '/'
    ||| c == '\''
    ||| c == '"'
    ||| (48 <= c as u32 && c as u32 <= 57)
}

/// The characters a token run is split on: the Unicode `White_Space` set,
/// the same separator class that ordinary whitespace splitting of a string
/// uses.
pub open spec fn is_space(c: char) -> bool {
    let u = c as u32;
    ||| u == 9
    ||| u == 10
    ||| u == 11
    ||| u == 12
    ||| u == 13
    ||| u == 32
    ||| u == 0x85
    ||| u == 0xA0
    ||| u == 0x1680
    ||| (0x2000 <= u && u <= 0x200A)
    ||| u == 0x2028
    ||| u == 0x2029
    ||| u == 0x202F
    ||| u == 0x205F
    ||| u == 0x3000
}

/// The text after character removal: every character of the removal class
/// is dropped, everything else is kept in order.
pub open spec fn strip(s: Seq<char>) -> Seq<char> {
    s.filter(|c: char| !is_removed(c))
}

/// Splitting on runs of whitespace, written as a left-to-right scan:
/// `cur` is the (possibly empty) token being gathered when the scan
/// reaches `s`. Empty fragments are discarded, so every returned token
/// is non-empty.
pub open spec fn split_ws_acc(s: Seq<char>, cur: Seq<char>) -> Seq<Seq<char>>
    decreases s.len(),
{
    if s.len() == 0 {
        if cur.len() == 0 {
            Seq::<Seq<char>>::empty()
        } else {
            seq![cur]
        }
    } else if is_space(s[0]) {
        if cur.len() == 0 {
            split_ws_acc(s.drop_first(), Seq::<char>::empty())
        } else {
            seq![cur] + split_ws_acc(s.drop_first(), Seq::<char>::empty())
        }
    } else {
        split_ws_acc(s.drop_first(), cur.push(s[0]))
    }
}

/// The whitespace-separated fragments of `s`, in order, empty fragments
/// discarded.
pub open spec fn split_ws(s: Seq<char>) -> Seq<Seq<char>> {
    split_ws_acc(s, Seq::<char>::empty())
}

/// What `str::to_lowercase` returns for a given character sequence: the
/// ordinary (locale-independent) Unicode lowercase mapping. The mapping is
/// a function of the characters alone; its full table is not restated here.
pub uninterp spec fn lower_of(s: Seq<char>) -> Seq<char>;

/// The normalized words of one chunk of text, in order: strip the removal
/// class, split on whitespace runs, lowercase each fragment.
pub open spec fn tokens_of(s: Seq<char>) -> Seq<Seq<char>> {
    split_ws(strip(s)).map_values(|t: Seq<char>| lower_of(t))
}

/// Whether `removed(c)` holds, decided executably.
pub fn removed(c: char) -> (b: bool)
    ensures
        b == is_removed(c),
{
    let u = c as u32;
    c == '!' || c == '@' || c == '#' || c == '$' || c == '%' || c == '^' || c == '&' || c == '*'
        || c == '(' || c == ')' || c == '_' || c == '+' || c == '=' || c == '[' || c == ']'
        || c == '{' || c == '}' || c == ';' || c == ':' || c == '\\' || c == '|' || c == ','
        || c == '.' || c == '<' || c == '>' || c == '?' || c == '/' || c == '\'' || c == '"'
        || (48 <= u && u <= 57)
}

/// Whether `is_space(c)` holds, decided executably.
pub fn space(c: char) -> (b: bool)
    ensures
        b == is_space(c),
{
    let u = c as u32;
    u == 9 || u == 10 || u == 11 || u == 12 || u == 13 || u == 32 || u == 0x85 || u == 0xA0
        || u == 0x1680 || (0x2000 <= u && u <= 0x200A) || u == 0x2028 || u == 0x2029
        || u == 0x202F || u == 0x205F || u == 0x3000
}

/// How `strip` grows when one more character of the text is taken in.
pub proof fn lemma_strip_step(s: Seq<char>, i: int)
    requires
        0 <= i < s.len(),
    ensures
        strip(s.subrange(0, i + 1)) == if is_removed(s[i]) {
            strip(s.subrange(0, i))
        } else {
            strip(s.subrange(0, i)).push(s[i])
        },
{
    let pre = s.subrange(0, i);
    let one = seq![s[i]];
    assert(s.subrange(0, i + 1) =~= pre + one);
    Seq::<char>::filter_distributes_over_add(pre, one, |c: char| !is_removed(c));
    reveal_with_fuel(Seq::<char>::filter, 2);
    assert(one.drop_last() =~= Seq::<char>::empty());
    if is_removed(s[i]) {
        assert(strip(s.subrange(0, i + 1)) =~= strip(pre));
    } else {
        assert(strip(s.subrange(0, i + 1)) =~= strip(pre).push(s[i]));
    }
}

/// The characters of `s`, in order, as a vector.
pub fn chars_of(s: &str) -> (v: Vec<char>)
    ensures
        v@ == s@,
{
    let n = s.unicode_len();
    let mut v: Vec<char> = Vec::new();
    let mut i: usize = 0;
    while i < n
        invariant
            n == s@.len(),
            i <= n,
            v@ == s@.subrange(0, i as int),
        decreases n - i,
    {
        let c = s.get_char(i);
        v.push(c);
        i = i + 1;
        proof {
            assert(v@ =~= s@.subrange(0, i as int));
        }
    }
    proof {
        assert(s@.subrange(0, n as int) =~= s@);
    }
    v
}

/// The input with every character of the removal class dropped.
pub fn strip_chars(cs: &Vec<char>) -> (r: Vec<char>)
    ensures
        r@ == strip(cs@),
{
    let mut r: Vec<char> = Vec::new();
    let mut i: usize = 0;
    proof {
        reveal_with_fuel(Seq::<char>::filter, 1);
        assert(cs@.subrange(0, 0) =~= Seq::<char>::empty());
        assert(strip(cs@.subrange(0, 0)) =~= Seq::<char>::empty());
    }
    while i < cs.len()
        invariant
            i <= cs@.len(),
            r@ == strip(cs@.subrange(0, i as int)),
        decreases cs@.len() - i,
    {
        let c = cs[i];
        if !removed(c) {
            r.push(c);
        }
        i = i + 1;
        proof {
            lemma_strip_step(cs@, i - 1);
        }
    }
    proof {
        assert(cs@.subrange(0, cs@.len() as int) =~= cs@);
    }
    r
}

/// The whitespace-separated fragments of the input, empty fragments
/// discarded; every returned fragment is non-empty.
pub fn split_tokens(cs: &Vec<char>) -> (toks: Vec<Vec<char>>)
    ensures
        toks@.map_values(|t: Vec<char>| t@) == split_ws(cs@),
        forall|k: int| 0 <= k < toks@.len() ==> (#[trigger] toks@[k])@.len() > 0,
{
    let ghost s = cs@;
    let ghost f = |t: Vec<char>| t@;
    let mut toks: Vec<Vec<char>> = Vec::new();
    let mut cur: Vec<char> = Vec::new();
    let mut i: usize = 0;
    proof {
        assert(s.subrange(0, s.len() as int) =~= s);
        assert(toks@.map_values(f) =~= Seq::<Seq<char>>::empty());
        assert(cur@ =~= Seq::<char>::empty());
    }
    while i < cs.len()
        invariant
            i <= s.len(),
            cs@ == s,
            split_ws(s) == toks@.map_values(f) + split_ws_acc(
                s.subrange(i as int, s.len() as int),
                cur@,
            ),
            f == (|t: Vec<char>| t@),
            forall|k: int| 0 <= k < toks@.len() ==> (#[trigger] toks@[k])@.len() > 0,
        decreases s.len() - i,
    {
        let ghost rem = s.subrange(i as int, s.len() as int);
        let ghost old_cur = cur@;
        let ghost old_toks = toks@;
        proof {
            assert(rem.len() > 0);
            assert(rem[0] == s[i as int]);
            assert(rem.drop_first() =~= s.subrange(i as int + 1, s.len() as int));
        }
        let c = cs[i];
        if space(c) {
            if cur.len() > 0 {
                toks.push(cur);
                cur = Vec::new();
                proof {
                    Seq::<Vec<char>>::lemma_push_map_commute(old_toks, f, toks@[toks@.len() - 1]);
                    assert(toks@.map_values(f) =~= old_toks.map_values(f).push(old_cur));
                    assert(cur@ =~= Seq::<char>::empty());
                    assert(split_ws_acc(rem, old_cur) == seq![old_cur] + split_ws_acc(
                        rem.drop_first(),
                        Seq::<char>::empty(),
                    ));
                    assert(old_toks.map_values(f) + (seq![old_cur] + split_ws_acc(
                        rem.drop_first(),
                        cur@,
                    )) =~= toks@.map_values(f) + split_ws_acc(rem.drop_first(), cur@));
                }
            } else {
                proof {
                    assert(cur@ =~= Seq::<char>::empty());
                }
            }
        } else {
            cur.push(c);
            proof {
                assert(cur@ =~= old_cur.push(s[i as int]));
            }
        }
        i = i + 1;
    }
    proof {
        assert(s.subrange(i as int, s.len() as int) =~= Seq::<char>::empty());
    }
    if cur.len() > 0 {
        let ghost old_toks = toks@;
        let ghost old_cur = cur@;
        toks.push(cur);
        proof {
            Seq::<Vec<char>>::lemma_push_map_commute(old_toks, f, toks@[toks@.len() - 1]);
            assert(toks@.map_values(f) =~= old_toks.map_values(f).push(old_cur));
            assert(split_ws_acc(Seq::<char>::empty(), old_cur) =~= seq![old_cur]);
            assert(old_toks.map_values(f) + seq![old_cur] =~= toks@.map_values(f));
        }
    } else {
        proof {
            assert(cur@ =~= Seq::<char>::empty());
            assert(toks@.map_values(f) + split_ws_acc(Seq::<char>::empty(), cur@) =~= toks@
                .map_values(f));
        }
    }
    toks
}

/// Whether two string slices hold the same characters, decided one
/// character at a time.
pub fn str_eq(a: &str, b: &str) -> (r: bool)
    ensures
        r == (a@ == b@),
{
    let na = a.unicode_len();
    let nb = b.unicode_len();
    if na != nb {
        return false;
    }
    let mut i: usize = 0;
    while i < na
        invariant
            na == a@.len(),
            na == b@.len(),
            i <= na,
            forall|j: int| 0 <= j < i ==> a@[j] == b@[j],
        decreases na - i,
    {
        let ca = a.get_char(i);
        let cb = b.get_char(i);
        if ca != cb {
            return false;
        }
        i = i + 1;
    }
    proof {
        assert(a@ =~= b@);
    }
    true
}

/// Relies on `str::to_lowercase`: the ordinary (locale-independent) Unicode
/// lowercase mapping. The result is a function of the input characters
/// alone; a non-empty string lowercases to a non-empty string, and an empty
/// string stays empty.
#[verifier::external_body]
pub(crate) fn lowercase_token(t: &Vec<char>) -> (r: String)
    ensures
        r@ == lower_of(t@),
        t@.len() > 0 ==> r@.len() > 0,
        t@.len() == 0 ==> r@.len() == 0,
{
    let s: String = t.iter().collect();
    s.to_lowercase()
}

/// The normalized words of one chunk of text, in order: the removal class
/// stripped, whitespace-split, each fragment lowercased.
pub fn normalized_tokens(text: &str) -> (toks: Vec<String>)
    ensures
        toks@.map_values(|t: String| t@) == tokens_of(text@),
        forall|k: int| 0 <= k < toks@.len() ==> (#[trigger] toks@[k])@.len() > 0,
{
    let cs = chars_of(text);
    let stripped = strip_chars(&cs);
    let raw = split_tokens(&stripped);
    let ghost frags = split_ws(strip(text@));
    proof {
        assert(raw@.map_values(|t: Vec<char>| t@) == frags);
        assert(raw@.len() == frags.len());
    }
    let mut toks: Vec<String> = Vec::new();
    let mut i: usize = 0;
    while i < raw.len()
        invariant
            i <= raw@.len(),
            raw@.map_values(|t: Vec<char>| t@) == frags,
            toks@.len() == i,
            forall|k: int| 0 <= k < i ==> (#[trigger] toks@[k])@ == lower_of(frags[k]),
            forall|k: int| 0 <= k < i ==> (#[trigger] toks@[k])@.len() > 0,
            forall|k: int| 0 <= k < raw@.len() ==> (#[trigger] raw@[k])@.len() > 0,
        decreases raw@.len() - i,
    {
        proof {
            assert(raw@.map_values(|t: Vec<char>| t@)[i as int] == raw@[i as int]@);
        }
        let w = lowercase_token(&raw[i]);
        toks.push(w);
        i = i + 1;
    }
    proof {
        assert(toks@.map_values(|t: String| t@) =~= tokens_of(text@)) by {
            assert(tokens_of(text@).len() == frags.len());
            assert forall|k: int| 0 <= k < frags.len() implies tokens_of(text@)[k] == lower_of(
                frags[k],
            ) by {
                assert(frags.map_values(|t: Seq<char>| lower_of(t))[k] == lower_of(frags[k]));
            }
        }
    }
    toks
}

} // verus!
