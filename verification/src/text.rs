//! Character-level text primitives used by the table parser: Unicode white
//! space, trimming, prefixes, the sole occurrence of a separator, and the
//! splitting of a line into white-space separated words.
use vstd::prelude::*;

verus! {

/// The Unicode `White_Space` characters, as `char::is_whitespace` defines
/// them.
pub open spec fn is_white(c: char) -> bool {
    let u = c as u32;
    ||| 0x9 <= u <= 0xD
    ||| u == 0x20
    ||| u == 0x85
    ||| u == 0xA0
    ||| u == 0x1680
    ||| 0x2000 <= u <= 0x200A
    ||| u == 0x2028
    ||| u == 0x2029
    ||| u == 0x202F
    ||| u == 0x205F
    ||| u == 0x3000
}

/// `s` with its leading white space removed.
pub open spec fn trim_start(s: Seq<char>) -> Seq<char>
    decreases s.len(),
{
    if s.len() > 0 && is_white(s[0]) {
        trim_start(s.drop_first())
    } else {
        s
    }
}

/// `s` with its trailing white space removed.
pub open spec fn trim_end(s: Seq<char>) -> Seq<char>
    decreases s.len(),
{
    if s.len() > 0 && is_white(s.last()) {
        trim_end(s.drop_last())
    } else {
        s
    }
}

/// `s` with leading and trailing white space removed.
pub open spec fn trim(s: Seq<char>) -> Seq<char> {
    trim_end(trim_start(s))
}

/// `s` begins with `p`.
pub open spec fn starts_with(s: Seq<char>, p: Seq<char>) -> bool {
    p.len() <= s.len() && s.subrange(0, p.len() as int) == p
}

/// Index `k` holds the only occurrence of `c` in `s`.
pub open spec fn is_sole(s: Seq<char>, c: char, k: int) -> bool {
    &&& 0 <= k < s.len()
    &&& s[k] == c
    &&& forall|j: int| 0 <= j < s.len() && s[j] == c ==> j == k
}

/// `c` occurs exactly once in `s`, so that splitting `s` at `c` gives two
/// parts.
pub open spec fn has_sole(s: Seq<char>, c: char) -> bool {
    exists|k: int| is_sole(s, c, k)
}

/// The index of the only occurrence of `c` in `s`.
pub open spec fn sole_index(s: Seq<char>, c: char) -> int {
    choose|k: int| is_sole(s, c, k)
}

/// The part of `s` before its only `c`.
pub open spec fn before_sole(s: Seq<char>, c: char) -> Seq<char> {
    s.subrange(0, sole_index(s, c))
}

/// The part of `s` after its only `c`.
pub open spec fn after_sole(s: Seq<char>, c: char) -> Seq<char> {
    s.subrange(sole_index(s, c) + 1, s.len() as int)
}

/// The number of leading characters of `s` that are not white space.
pub open spec fn word_len(s: Seq<char>) -> nat
    decreases s.len(),
{
    if s.len() > 0 && !is_white(s[0]) {
        1 + word_len(s.drop_first())
    } else {
        0
    }
}

pub proof fn lemma_word_len_bounded(s: Seq<char>)
    ensures
        word_len(s) <= s.len(),
        s.len() > 0 && !is_white(s[0]) ==> word_len(s) >= 1,
    decreases s.len(),
{
    if s.len() > 0 && !is_white(s[0]) {
        lemma_word_len_bounded(s.drop_first());
    }
}

/// The white-space separated words of `s`, in order, as
/// `str::split_whitespace` yields them.
pub open spec fn words(s: Seq<char>) -> Seq<Seq<char>>
    decreases s.len(),
{
    if s.len() == 0 {
        Seq::empty()
    } else if is_white(s[0]) {
        words(s.drop_first())
    } else {
        proof {
            lemma_word_len_bounded(s);
        }
        seq![s.subrange(0, word_len(s) as int)] + words(s.subrange(word_len(s) as int, s.len() as int))
    }
}

/// The character sequences of a list of tokens.
pub open spec fn tokens_view(v: Seq<Vec<char>>) -> Seq<Seq<char>> {
    v.map_values(|t: Vec<char>| t@)
}

/// Whether `c` is white space.
pub fn char_is_white(c: char) -> (b: bool)
    ensures
        b == is_white(c),
{
    let u = c as u32;
    (0x9 <= u && u <= 0xD) || u == 0x20 || u == 0x85 || u == 0xA0 || u == 0x1680 || (0x2000 <= u
        && u <= 0x200A) || u == 0x2028 || u == 0x2029 || u == 0x202F || u == 0x205F || u == 0x3000
}

/// A copy of the characters `s[lo..hi]`.
pub fn sub_chars(s: &Vec<char>, lo: usize, hi: usize) -> (t: Vec<char>)
    requires
        lo <= hi <= s.len(),
    ensures
        t@ == s@.subrange(lo as int, hi as int),
{
    let mut t: Vec<char> = Vec::new();
    let mut i = lo;
    while i < hi
        invariant
            lo <= i <= hi <= s.len(),
            t@ == s@.subrange(lo as int, i as int),
        decreases hi - i,
    {
        t.push(s[i]);
        i += 1;
        proof {
            assert(t@ =~= s@.subrange(lo as int, i as int));
        }
    }
    t
}

proof fn lemma_trim_start_step(s: Seq<char>, a: int)
    requires
        0 <= a < s.len(),
        is_white(s[a]),
    ensures
        trim_start(s.subrange(a, s.len() as int)) == trim_start(s.subrange(a + 1, s.len() as int)),
{
    assert(s.subrange(a, s.len() as int).drop_first() =~= s.subrange(a + 1, s.len() as int));
}

proof fn lemma_trim_end_step(s: Seq<char>, b: int)
    requires
        0 < b <= s.len(),
        is_white(s[b - 1]),
    ensures
        trim_end(s.subrange(0, b)) == trim_end(s.subrange(0, b - 1)),
{
    assert(s.subrange(0, b).drop_last() =~= s.subrange(0, b - 1));
}

/// `s` with leading and trailing white space removed, as `str::trim` does.
pub fn trim_chars(s: &Vec<char>) -> (t: Vec<char>)
    ensures
        t@ == trim(s@),
{
    let n = s.len();
    let mut a: usize = 0;
    proof {
        assert(s@.subrange(0, n as int) =~= s@);
    }
    while a < n && char_is_white(s[a])
        invariant
            n == s.len(),
            a <= n,
            trim_start(s@) == trim_start(s@.subrange(a as int, n as int)),
        decreases n - a,
    {
        proof {
            lemma_trim_start_step(s@, a as int);
        }
        a += 1;
    }
    let ghost u = s@.subrange(a as int, n as int);
    assert(trim_start(s@) == u);
    let mut b: usize = n;
    proof {
        assert(u.subrange(0, u.len() as int) =~= u);
    }
    while b > a && char_is_white(s[b - 1])
        invariant
            n == s.len(),
            a <= b <= n,
            u == s@.subrange(a as int, n as int),
            trim_end(u) == trim_end(u.subrange(0, b - a)),
        decreases b - a,
    {
        proof {
            assert(u[b - a - 1] == s@[b - 1]);
            lemma_trim_end_step(u, b - a);
        }
        b -= 1;
    }
    proof {
        let v = u.subrange(0, b - a);
        assert(v =~= s@.subrange(a as int, b as int));
        assert(trim_end(v) == v);
    }
    sub_chars(s, a, b)
}

/// Whether `s` begins with the characters of `p`.
pub fn chars_start_with(s: &Vec<char>, p: &[char]) -> (b: bool)
    ensures
        b == starts_with(s@, p@),
{
    if p.len() > s.len() {
        return false;
    }
    let mut i: usize = 0;
    while i < p.len()
        invariant
            p.len() <= s.len(),
            i <= p.len(),
            forall|j: int| 0 <= j < i ==> s@[j] == p@[j],
        decreases p.len() - i,
    {
        if s[i] != p[i] {
            assert(s@.subrange(0, p@.len() as int)[i as int] != p@[i as int]);
            return false;
        }
        i += 1;
    }
    assert(s@.subrange(0, p@.len() as int) =~= p@);
    true
}

/// The index of `c` in `s` when `c` occurs exactly once, else `None`.
pub fn find_sole(s: &Vec<char>, c: char) -> (r: Option<usize>)
    ensures
        r is Some <==> has_sole(s@, c),
        r matches Some(k) ==> k == sole_index(s@, c) && is_sole(s@, c, k as int),
{
    let mut found: Option<usize> = None;
    let mut i: usize = 0;
    while i < s.len()
        invariant
            i <= s.len(),
            found matches Some(k) ==> k < i && s@[k as int] == c && forall|j: int|
                0 <= j < i && s@[j] == c ==> j == k,
            found is None ==> forall|j: int| 0 <= j < i ==> s@[j] != c,
        decreases s.len() - i,
    {
        if s[i] == c {
            match found {
                Some(k) => {
                    proof {
                        assert forall|k2: int| !is_sole(s@, c, k2) by {
                            if is_sole(s@, c, k2) {
                                assert(k2 == k as int);
                                assert(k2 == i as int);
                            }
                        }
                    }
                    return None;
                },
                None => {
                    found = Some(i);
                },
            }
        }
        i += 1;
    }
    match found {
        Some(k) => {
            assert(is_sole(s@, c, k as int));
            assert(has_sole(s@, c));
            assert(sole_index(s@, c) == k as int) by {
                let k2 = sole_index(s@, c);
                assert(is_sole(s@, c, k2));
            }
        },
        None => {
            assert forall|k2: int| !is_sole(s@, c, k2) by {
                if is_sole(s@, c, k2) {
                    assert(s@[k2] == c);
                }
            }
        },
    }
    found
}

proof fn lemma_words_word(s: Seq<char>, k: int)
    requires
        0 < k <= s.len(),
        forall|j: int| 0 <= j < k ==> !is_white(s[j]),
        k == s.len() || is_white(s[k]),
    ensures
        word_len(s) == k,
    decreases k,
{
    if k > 1 {
        let t = s.drop_first();
        assert forall|j: int| 0 <= j < k - 1 implies !is_white(t[j]) by {
            assert(t[j] == s[j + 1]);
        }
        if k - 1 < t.len() {
            assert(t[k - 1] == s[k]);
        }
        lemma_words_word(t, k - 1);
        assert(!is_white(s[0]));
        assert(word_len(s) == 1 + word_len(t));
    } else {
        let t = s.drop_first();
        if t.len() > 0 {
            assert(t[0] == s[1]);
        }
        assert(word_len(t) == 0);
        assert(!is_white(s[0]));
        assert(word_len(s) == 1 + word_len(t));
    }
}

/// The white-space separated words of `s`, as `str::split_whitespace`
/// yields them.
pub fn split_words(s: &Vec<char>) -> (w: Vec<Vec<char>>)
    ensures
        tokens_view(w@) == words(s@),
{
    let n = s.len();
    let mut out: Vec<Vec<char>> = Vec::new();
    let mut i: usize = 0;
    proof {
        assert(s@.subrange(0, n as int) =~= s@);
        assert(tokens_view(out@) + words(s@.subrange(0, n as int)) =~= words(s@));
    }
    while i < n
        invariant
            n == s.len(),
            i <= n,
            tokens_view(out@) + words(s@.subrange(i as int, n as int)) == words(s@),
        decreases n - i,
    {
        if char_is_white(s[i]) {
            proof {
                let r = s@.subrange(i as int, n as int);
                assert(r.drop_first() =~= s@.subrange(i + 1, n as int));
            }
            i += 1;
        } else {
            let start = i;
            while i < n && !char_is_white(s[i])
                invariant
                    n == s.len(),
                    start < n,
                    start <= i <= n,
                    !is_white(s@[start as int]),
                    forall|j: int| start <= j < i ==> !is_white(s@[j]),
                decreases n - i,
            {
                i += 1;
            }
            let word = sub_chars(s, start, i);
            proof {
                let r = s@.subrange(start as int, n as int);
                let k = i - start;
                assert forall|j: int| 0 <= j < k implies !is_white(r[j]) by {
                    assert(r[j] == s@[start + j]);
                }
                if k < r.len() {
                    assert(r[k] == s@[i as int]);
                }
                lemma_words_word(r, k);
                assert(r.subrange(0, k) =~= word@);
                assert(r.subrange(k, r.len() as int) =~= s@.subrange(i as int, n as int));
                assert(words(r) == seq![word@] + words(s@.subrange(i as int, n as int)));
            }
            let ghost before = tokens_view(out@);
            out.push(word);
            proof {
                assert(tokens_view(out@) =~= before.push(word@));
                assert(before.push(word@) + words(s@.subrange(i as int, n as int)) =~= before + (seq![
                    word@,
                ] + words(s@.subrange(i as int, n as int))));
            }
        }
    }
    proof {
        assert(words(s@.subrange(n as int, n as int)) =~= Seq::<Seq<char>>::empty());
        assert(tokens_view(out@) + Seq::<Seq<char>>::empty() =~= tokens_view(out@));
    }
    out
}

} // verus!
