//! What the text primitives mean, stated by positions in the text.
use vstd::prelude::*;
use crate::text::{
    after_sole, before_sole, has_sole, is_sole, is_white, lemma_word_len_bounded, trim, trim_end,
    trim_start, word_len, words,
};

verus! {

/// Splitting at the sole `c` gives back the text: the part before, `c`,
/// and the part after, neither of which holds `c`.
pub proof fn sole_split_rebuilds(s: Seq<char>, c: char)
    requires
        has_sole(s, c),
    ensures
        before_sole(s, c) + seq![c] + after_sole(s, c) == s,
        !before_sole(s, c).contains(c),
        !after_sole(s, c).contains(c),
{
    let k = choose|k: int| is_sole(s, c, k);
    assert(is_sole(s, c, k));
    assert(before_sole(s, c) + seq![c] + after_sole(s, c) =~= s);
    if before_sole(s, c).contains(c) {
        let j = choose|j: int| 0 <= j < before_sole(s, c).len() && before_sole(s, c)[j] == c;
        assert(s[j] == c);
    }
    if after_sole(s, c).contains(c) {
        let j = choose|j: int| 0 <= j < after_sole(s, c).len() && after_sole(s, c)[j] == c;
        assert(s[k + 1 + j] == c);
    }
}

proof fn lemma_trim_start(s: Seq<char>) -> (a: int)
    ensures
        0 <= a <= s.len(),
        trim_start(s) == s.subrange(a, s.len() as int),
        forall|i: int| 0 <= i < a ==> is_white(s[i]),
        a < s.len() ==> !is_white(s[a]),
    decreases s.len(),
{
    if s.len() > 0 && is_white(s[0]) {
        let t = s.drop_first();
        let a1 = lemma_trim_start(t);
        assert(t.subrange(a1, t.len() as int) =~= s.subrange(a1 + 1, s.len() as int));
        assert forall|i: int| 0 <= i < a1 + 1 implies is_white(s[i]) by {
            if i > 0 {
                assert(s[i] == t[i - 1]);
            }
        }
        if a1 + 1 < s.len() {
            assert(s[a1 + 1] == t[a1]);
        }
        a1 + 1
    } else {
        assert(s.subrange(0, s.len() as int) =~= s);
        0
    }
}

proof fn lemma_trim_end(s: Seq<char>) -> (b: int)
    ensures
        0 <= b <= s.len(),
        trim_end(s) == s.subrange(0, b),
        forall|i: int| b <= i < s.len() ==> is_white(s[i]),
        b > 0 ==> !is_white(s[b - 1]),
    decreases s.len(),
{
    if s.len() > 0 && is_white(s.last()) {
        let t = s.drop_last();
        let b1 = lemma_trim_end(t);
        assert(t.subrange(0, b1) =~= s.subrange(0, b1));
        assert forall|i: int| b1 <= i < s.len() implies is_white(s[i]) by {
            if i < t.len() {
                assert(s[i] == t[i]);
            }
        }
        if b1 > 0 {
            assert(s[b1 - 1] == t[b1 - 1]);
        }
        b1
    } else {
        assert(s.subrange(0, s.len() as int) =~= s);
        s.len() as int
    }
}

/// Trimming keeps the text between the first and the last character that
/// is not white space, and removes only white space around it.
pub proof fn trim_keeps_the_inner_text(s: Seq<char>) -> (a: int)
    ensures
        0 <= a && a + trim(s).len() <= s.len(),
        trim(s) == s.subrange(a, a + trim(s).len()),
        forall|i: int| 0 <= i < a ==> is_white(s[i]),
        forall|i: int| a + trim(s).len() <= i < s.len() ==> is_white(s[i]),
        trim(s).len() > 0 ==> !is_white(trim(s)[0]) && !is_white(trim(s).last()),
{
    let a = lemma_trim_start(s);
    let u = s.subrange(a, s.len() as int);
    let b = lemma_trim_end(u);
    assert(trim(s) == u.subrange(0, b));
    assert(u.subrange(0, b) =~= s.subrange(a, a + b));
    assert forall|i: int| a + b <= i < s.len() implies is_white(s[i]) by {
        assert(s[i] == u[i - a]);
    }
    if b > 0 {
        assert(u[0] == s[a]);
        assert(trim(s)[0] == s[a]);
    }
    a
}

/// `(a, b)` is a maximal run of characters that are not white space.
pub open spec fn is_word_span(s: Seq<char>, span: (int, int)) -> bool {
    &&& 0 <= span.0 < span.1 <= s.len()
    &&& forall|i: int| span.0 <= i < span.1 ==> !is_white(#[trigger] s[i])
    &&& span.0 == 0 || is_white(s[span.0 - 1])
    &&& span.1 == s.len() || is_white(s[span.1])
}

/// The spans `spans` are the words of `s`: maximal runs of non-white
/// characters, in order, covering every non-white character.
pub open spec fn are_word_spans(s: Seq<char>, spans: Seq<(int, int)>) -> bool {
    &&& forall|k: int| 0 <= k < spans.len() ==> is_word_span(s, #[trigger] spans[k])
    &&& forall|k: int, l: int| 0 <= k < l < spans.len() ==> spans[k].1 < spans[l].0
    &&& forall|i: int|
        0 <= i < s.len() && !is_white(s[i]) ==> exists|k: int|
            0 <= k < spans.len() && spans[k].0 <= i < #[trigger] spans[k].1
}

proof fn lemma_word_len_exact(s: Seq<char>)
    ensures
        forall|i: int| 0 <= i < word_len(s) ==> !is_white(#[trigger] s[i]),
        word_len(s) < s.len() ==> is_white(s[word_len(s) as int]),
        word_len(s) <= s.len(),
    decreases s.len(),
{
    lemma_word_len_bounded(s);
    if s.len() > 0 && !is_white(s[0]) {
        let t = s.drop_first();
        lemma_word_len_exact(t);
        assert forall|i: int| 0 <= i < word_len(s) implies !is_white(#[trigger] s[i]) by {
            if i > 0 {
                assert(s[i] == t[i - 1]);
            }
        }
        if word_len(s) < s.len() {
            assert(s[word_len(s) as int] == t[word_len(t) as int]);
        }
    }
}

spec fn shift(spans: Seq<(int, int)>, d: int) -> Seq<(int, int)> {
    spans.map_values(|p: (int, int)| (p.0 + d, p.1 + d))
}

/// The words of a text are its maximal runs of non-white characters, in
/// order: word `k` is the text of span `k`, and the spans cover every
/// non-white character.
pub proof fn words_are_maximal_runs(s: Seq<char>) -> (spans: Seq<(int, int)>)
    ensures
        spans.len() == words(s).len(),
        are_word_spans(s, spans),
        forall|k: int| 0 <= k < spans.len() ==> #[trigger] words(s)[k] == s.subrange(spans[k].0, spans[k].1),
    decreases s.len(),
{
    if s.len() == 0 {
        Seq::empty()
    } else if is_white(s[0]) {
        let t = s.drop_first();
        let sp = words_are_maximal_runs(t);
        let r = shift(sp, 1);
        assert forall|k: int| 0 <= k < r.len() implies is_word_span(s, #[trigger] r[k]) by {
            assert(is_word_span(t, sp[k]));
            assert forall|i: int| r[k].0 <= i < r[k].1 implies !is_white(#[trigger] s[i]) by {
                assert(s[i] == t[i - 1]);
            }
            if sp[k].0 > 0 {
                assert(s[r[k].0 - 1] == t[sp[k].0 - 1]);
            }
            if sp[k].1 < t.len() {
                assert(s[r[k].1] == t[sp[k].1]);
            }
        }
        assert forall|i: int| 0 <= i < s.len() && !is_white(s[i]) implies exists|k: int|
            0 <= k < r.len() && r[k].0 <= i < #[trigger] r[k].1 by {
            assert(i > 0);
            assert(t[i - 1] == s[i]);
            let k = choose|k: int| 0 <= k < sp.len() && sp[k].0 <= i - 1 < #[trigger] sp[k].1;
            assert(r[k].0 <= i < r[k].1);
        }
        assert forall|k: int| 0 <= k < r.len() implies #[trigger] words(s)[k] == s.subrange(r[k].0, r[k].1) by {
            assert(words(t)[k] == t.subrange(sp[k].0, sp[k].1));
            assert(t.subrange(sp[k].0, sp[k].1) =~= s.subrange(r[k].0, r[k].1));
        }
        r
    } else {
        lemma_word_len_bounded(s);
        lemma_word_len_exact(s);
        let w = word_len(s) as int;
        let t = s.subrange(w, s.len() as int);
        let sp = words_are_maximal_runs(t);
        let r = seq![(0int, w)] + shift(sp, w);
        assert(words(s) == seq![s.subrange(0, w)] + words(t));
        assert forall|k: int| 0 <= k < r.len() implies is_word_span(s, #[trigger] r[k]) by {
            if k > 0 {
                let p = sp[k - 1];
                assert(is_word_span(t, p));
                assert(r[k] == (p.0 + w, p.1 + w));
                assert forall|i: int| r[k].0 <= i < r[k].1 implies !is_white(#[trigger] s[i]) by {
                    assert(s[i] == t[i - w]);
                }
                if p.0 > 0 {
                    assert(s[r[k].0 - 1] == t[p.0 - 1]);
                } else {
                    assert(!is_white(t[0]));
                    assert(t[0] == s[w]);
                }
                if p.1 < t.len() {
                    assert(s[r[k].1] == t[p.1]);
                }
            } else {
                assert(r[0] == (0int, w));
            }
        }
        assert forall|k: int, l: int| 0 <= k < l < r.len() implies r[k].1 < r[l].0 by {
            let p = sp[l - 1];
            assert(is_word_span(t, p));
            if k > 0 {
                assert(sp[k - 1].1 < sp[l - 1].0);
            } else {
                if p.0 == 0 {
                    assert(!is_white(t[0]));
                    assert(t[0] == s[w]);
                }
            }
        }
        assert forall|i: int| 0 <= i < s.len() && !is_white(s[i]) implies exists|k: int|
            0 <= k < r.len() && r[k].0 <= i < #[trigger] r[k].1 by {
            if i < w {
                assert(r[0].0 <= i < r[0].1);
            } else {
                assert(t[i - w] == s[i]);
                let k = choose|k: int| 0 <= k < sp.len() && sp[k].0 <= i - w < #[trigger] sp[k].1;
                assert(r[k + 1].0 <= i < r[k + 1].1);
            }
        }
        assert forall|k: int| 0 <= k < r.len() implies #[trigger] words(s)[k] == s.subrange(r[k].0, r[k].1) by {
            if k > 0 {
                assert(words(s)[k] == words(t)[k - 1]);
                assert(words(t)[k - 1] == t.subrange(sp[k - 1].0, sp[k - 1].1));
                assert(t.subrange(sp[k - 1].0, sp[k - 1].1) =~= s.subrange(r[k].0, r[k].1));
            }
        }
        r
    }
}

} // verus!
