//! Character-level helpers shared by the parsers and formatters.
//!
//! Strings are handled as sequences of `char` (their view).  The predicates
//! here follow the definitions of `char::is_whitespace`, `str::trim`,
//! `str::split_whitespace` and `str::lines`.
use vstd::prelude::*;

verus! {

broadcast use vstd::string::group_string_axioms;

// ---------------------------------------------------------------------------
// Conversions between strings and character vectors
// ---------------------------------------------------------------------------

/// The characters of `s`, in order.
pub fn chars_of(s: &str) -> (v: Vec<char>)
    ensures
        v@ == s@,
{
    let mut v: Vec<char> = Vec::new();
    for c in it: s.chars()
        invariant
            v@ == it.seq().take(it.index() as int),
    {
        v.push(c);
    }
    v
}

/// `String` made of the given characters (`FromIterator<&char> for String`).
#[verifier::external_body]
pub(crate) fn string_from_chars(chars: &[char]) -> (s: String)
    ensures
        s@ == chars@,
{
    chars.iter().collect()
}

/// Whether the characters of `v` spell `lit`.
pub fn chars_eq_str(v: &[char], lit: &str) -> (b: bool)
    ensures
        b == (v@ == lit@),
{
    let w = chars_of(lit);
    if v.len() != w.len() {
        return false;
    }
    let mut i: usize = 0;
    while i < v.len()
        invariant
            v@.len() == w@.len(),
            w@ == lit@,
            i <= v@.len(),
            forall|j: int| 0 <= j < i ==> v@[j] == w@[j],
        decreases v@.len() - i,
    {
        if v[i] != w[i] {
            return false;
        }
        i += 1;
    }
    assert(v@ =~= w@);
    true
}

/// Appends the characters of `lit` to `out`.
pub fn push_str_chars(out: &mut Vec<char>, lit: &str)
    ensures
        final(out)@ == old(out)@ + lit@,
{
    let w = chars_of(lit);
    let mut i: usize = 0;
    while i < w.len()
        invariant
            w@ == lit@,
            i <= w@.len(),
            out@ == old(out)@ + w@.take(i as int),
        decreases w@.len() - i,
    {
        out.push(w[i]);
        i += 1;
        assert(w@.take(i as int) =~= w@.take(i - 1) + seq![w@[i - 1]]);
    }
    assert(w@.take(w@.len() as int) =~= w@);
}

/// Appends all of `src` to `out`.
pub fn push_all(out: &mut Vec<char>, src: &[char])
    ensures
        final(out)@ == old(out)@ + src@,
{
    let mut i: usize = 0;
    while i < src.len()
        invariant
            i <= src@.len(),
            out@ == old(out)@ + src@.take(i as int),
        decreases src@.len() - i,
    {
        out.push(src[i]);
        i += 1;
        assert(src@.take(i as int) =~= src@.take(i - 1) + seq![src@[i - 1]]);
    }
    assert(src@.take(src@.len() as int) =~= src@);
}

/// Copy of `src[from..to]`.
pub fn slice_chars(src: &[char], from: usize, to: usize) -> (r: Vec<char>)
    requires
        from <= to <= src@.len(),
    ensures
        r@ == src@.subrange(from as int, to as int),
{
    let mut r: Vec<char> = Vec::new();
    let mut i: usize = from;
    while i < to
        invariant
            from <= i <= to <= src@.len(),
            r@ == src@.subrange(from as int, i as int),
        decreases to - i,
    {
        r.push(src[i]);
        i += 1;
        assert(r@ =~= src@.subrange(from as int, i as int));
    }
    r
}

// ---------------------------------------------------------------------------
// White space
// ---------------------------------------------------------------------------

/// The Unicode `White_Space` property, which `char::is_whitespace` tests.
pub open spec fn is_ws(c: char) -> bool {
    let u = c as u32;
    ||| 0x9 <= u <= 0xd
    ||| u == 0x20
    ||| u == 0x85
    ||| u == 0xa0
    ||| u == 0x1680
    ||| 0x2000 <= u <= 0x200a
    ||| u == 0x2028
    ||| u == 0x2029
    ||| u == 0x202f
    ||| u == 0x205f
    ||| u == 0x3000
}

/// `char::is_whitespace`.
pub fn is_whitespace(c: char) -> (b: bool)
    ensures
        b == is_ws(c),
{
    let u = c as u32;
    (0x9 <= u && u <= 0xd) || u == 0x20 || u == 0x85 || u == 0xa0 || u == 0x1680 || (0x2000
        <= u && u <= 0x200a) || u == 0x2028 || u == 0x2029 || u == 0x202f || u == 0x205f || u
        == 0x3000
}

/// `s` with leading white space removed.
pub open spec fn trim_start(s: Seq<char>) -> Seq<char>
    decreases s.len(),
{
    if s.len() > 0 && is_ws(s[0]) {
        trim_start(s.drop_first())
    } else {
        s
    }
}

/// `s` with trailing white space removed.
pub open spec fn trim_end(s: Seq<char>) -> Seq<char>
    decreases s.len(),
{
    if s.len() > 0 && is_ws(s.last()) {
        trim_end(s.drop_last())
    } else {
        s
    }
}

/// `str::trim`: `s` without leading and trailing white space.
pub open spec fn trim(s: Seq<char>) -> Seq<char> {
    trim_end(trim_start(s))
}

/// The first `i` characters are white space and `s[i]` is not (or `i` is the end).
pub open spec fn ws_prefix(s: Seq<char>, i: int) -> bool {
    &&& 0 <= i <= s.len()
    &&& forall|j: int| 0 <= j < i ==> is_ws(#[trigger] s[j])
    &&& i < s.len() ==> !is_ws(s[i])
}

/// The characters from `i` on are white space and `s[i - 1]` is not (or `i` is 0).
pub open spec fn ws_suffix(s: Seq<char>, i: int) -> bool {
    &&& 0 <= i <= s.len()
    &&& forall|j: int| i <= j < s.len() ==> is_ws(#[trigger] s[j])
    &&& i > 0 ==> !is_ws(s[i - 1])
}

pub proof fn lemma_trim_start_at(s: Seq<char>, i: int)
    requires
        ws_prefix(s, i),
    ensures
        trim_start(s) == s.skip(i),
    decreases s.len(),
{
    if s.len() > 0 && is_ws(s[0]) {
        assert(i > 0);
        let t = s.drop_first();
        assert forall|j: int| 0 <= j < i - 1 implies is_ws(#[trigger] t[j]) by {
            assert(t[j] == s[j + 1]);
        }
        lemma_trim_start_at(t, i - 1);
        assert(t.skip(i - 1) =~= s.skip(i));
    } else {
        if i > 0 {
            assert(is_ws(s[0]));
        }
        assert(s.skip(0) =~= s);
    }
}

pub proof fn lemma_trim_end_at(s: Seq<char>, i: int)
    requires
        ws_suffix(s, i),
    ensures
        trim_end(s) == s.take(i),
    decreases s.len(),
{
    if s.len() > 0 && is_ws(s.last()) {
        assert(i < s.len());
        let t = s.drop_last();
        lemma_trim_end_at(t, i);
        assert(t.take(i) =~= s.take(i));
    } else {
        if i < s.len() {
            assert(is_ws(s[s.len() - 1]));
        }
        assert(s.take(s.len() as int) =~= s);
    }
}

proof fn lemma_trim_start_drop_ws_last(s: Seq<char>)
    requires
        s.len() > 0,
        is_ws(s.last()),
    ensures
        trim_start(s.drop_last()) == (if trim_start(s).len() == 0 {
            Seq::<char>::empty()
        } else {
            trim_start(s).drop_last()
        }),
    decreases s.len(),
{
    if is_ws(s[0]) {
        if s.len() == 1 {
            assert(s.drop_last() =~= Seq::<char>::empty());
            assert(s.drop_first() =~= Seq::<char>::empty());
        } else {
            let t = s.drop_first();
            assert(t.last() == s.last());
            lemma_trim_start_drop_ws_last(t);
            assert(s.drop_last().drop_first() =~= t.drop_last());
            assert(s.drop_last()[0] == s[0]);
        }
    } else {
        assert(s.len() != 1);
        assert(s.drop_last()[0] == s[0]);
    }
}

/// Dropping a trailing white-space character leaves the trimmed text as it is.
pub proof fn lemma_trim_drop_ws_last(s: Seq<char>)
    requires
        s.len() > 0,
        is_ws(s.last()),
    ensures
        trim(s.drop_last()) == trim(s),
{
    lemma_trim_start_drop_ws_last(s);
    let x = trim_start(s);
    if x.len() > 0 {
        lemma_trim_start_len(s);
        let i = choose|i: int| ws_prefix(s, i) && trim_start(s) == #[trigger] s.skip(i);
        assert(x.last() == s.last());
    }
}

/// Bounds `(start, end)` of `trim(s)` inside `s`.
pub fn trim_bounds(s: &[char]) -> (r: (usize, usize))
    ensures
        r.0 <= r.1 <= s@.len(),
        trim(s@) == s@.subrange(r.0 as int, r.1 as int),
        trim_start(s@) == s@.skip(r.0 as int),
{
    let mut i: usize = 0;
    while i < s.len() && is_whitespace(s[i])
        invariant
            i <= s@.len(),
            forall|j: int| 0 <= j < i ==> is_ws(#[trigger] s@[j]),
        decreases s@.len() - i,
    {
        i += 1;
    }
    proof {
        lemma_trim_start_at(s@, i as int);
    }
    let ghost t = s@.skip(i as int);
    let mut k: usize = s.len();
    while k > i && is_whitespace(s[k - 1])
        invariant
            i <= k <= s@.len(),
            forall|j: int| k <= j < s@.len() ==> is_ws(#[trigger] s@[j]),
        decreases k,
    {
        k -= 1;
    }
    proof {
        assert forall|j: int| k - i <= j < t.len() implies is_ws(#[trigger] t[j]) by {
            assert(t[j] == s@[j + i]);
        }
        if k > i {
            assert(t[k - i - 1] == s@[k - 1]);
        }
        lemma_trim_end_at(t, k - i);
        assert(t.take(k - i) =~= s@.subrange(i as int, k as int));
    }
    (i, k)
}

/// `str::trim`, on characters.
pub fn trim_chars(s: &[char]) -> (r: Vec<char>)
    ensures
        r@ == trim(s@),
{
    let (a, b) = trim_bounds(s);
    slice_chars(s, a, b)
}

// ---------------------------------------------------------------------------
// Words (`str::split_whitespace`)
// ---------------------------------------------------------------------------

/// Number of leading characters of `s` that are not white space.
pub open spec fn word_len(s: Seq<char>) -> nat
    decreases s.len(),
{
    if s.len() > 0 && !is_ws(s[0]) {
        1 + word_len(s.drop_first())
    } else {
        0
    }
}

pub proof fn lemma_trim_start_len(s: Seq<char>)
    ensures
        trim_start(s).len() <= s.len(),
        trim_start(s).len() > 0 ==> !is_ws(trim_start(s)[0]),
        exists|i: int| ws_prefix(s, i) && trim_start(s) == #[trigger] s.skip(i),
    decreases s.len(),
{
    if s.len() > 0 && is_ws(s[0]) {
        lemma_trim_start_len(s.drop_first());
        let t = s.drop_first();
        let i = choose|i: int| ws_prefix(t, i) && trim_start(t) == #[trigger] t.skip(i);
        assert forall|j: int| 0 <= j < i + 1 implies is_ws(#[trigger] s[j]) by {
            if j > 0 {
                assert(s[j] == t[j - 1]);
            }
        }
        assert(t.skip(i) =~= s.skip(i + 1));
        if i + 1 < s.len() {
            assert(s[i + 1] == t[i]);
        }
        assert(ws_prefix(s, i + 1));
    } else {
        assert(s.skip(0) =~= s);
        assert(ws_prefix(s, 0));
    }
}

pub proof fn lemma_word_len(s: Seq<char>)
    ensures
        word_len(s) <= s.len(),
        forall|j: int| 0 <= j < word_len(s) ==> !is_ws(#[trigger] s[j]),
        word_len(s) < s.len() ==> is_ws(s[word_len(s) as int]),
    decreases s.len(),
{
    if s.len() > 0 && !is_ws(s[0]) {
        let t = s.drop_first();
        lemma_word_len(t);
        assert forall|j: int| 0 <= j < word_len(s) implies !is_ws(#[trigger] s[j]) by {
            if j > 0 {
                assert(s[j] == t[j - 1]);
            }
        }
        if word_len(s) < s.len() {
            assert(s[word_len(s) as int] == t[word_len(t) as int]);
        }
    }
}

pub proof fn lemma_word_len_at(s: Seq<char>, k: int)
    requires
        0 <= k <= s.len(),
        forall|j: int| 0 <= j < k ==> !is_ws(#[trigger] s[j]),
        k < s.len() ==> is_ws(s[k]),
    ensures
        word_len(s) == k,
    decreases s.len(),
{
    if s.len() > 0 && !is_ws(s[0]) {
        let t = s.drop_first();
        assert forall|j: int| 0 <= j < k - 1 implies !is_ws(#[trigger] t[j]) by {
            assert(t[j] == s[j + 1]);
        }
        if k - 1 < t.len() {
            assert(t[k - 1] == s[k]);
        }
        lemma_word_len_at(t, k - 1);
    } else {
        if k > 0 {
            assert(!is_ws(s[0]));
        }
    }
}

/// `str::split_whitespace`: the maximal runs of non-white-space characters.
pub open spec fn words(s: Seq<char>) -> Seq<Seq<char>>
    decreases s.len(),
{
    let t = trim_start(s);
    if t.len() == 0 {
        seq![]
    } else {
        let n = word_len(t);
        proof {
            lemma_trim_start_len(s);
            lemma_word_len(t);
        }
        seq![t.take(n as int)] + words(t.skip(n as int))
    }
}

/// `str::split_whitespace`, on characters.
pub fn split_words(s: &[char]) -> (r: Vec<Vec<char>>)
    ensures
        r@.len() == words(s@).len(),
        forall|i: int| 0 <= i < r@.len() ==> (#[trigger] r@[i])@ == words(s@)[i],
{
    let mut r: Vec<Vec<char>> = Vec::new();
    let mut pos: usize = 0;
    let ghost done: Seq<Seq<char>> = seq![];
    assert(s@.skip(0) =~= s@);
    assert(done + words(s@) =~= words(s@));
    loop
        invariant
            pos <= s@.len(),
            r@.len() == done.len(),
            forall|i: int| 0 <= i < r@.len() ==> (#[trigger] r@[i])@ == done[i],
            done + words(s@.skip(pos as int)) == words(s@),
        decreases s@.len() - pos,
    {
        let ghost rest = s@.skip(pos as int);
        let mut i: usize = pos;
        while i < s.len() && is_whitespace(s[i])
            invariant
                pos <= i <= s@.len(),
                forall|j: int| pos <= j < i ==> is_ws(#[trigger] s@[j]),
            decreases s@.len() - i,
        {
            i += 1;
        }
        proof {
            assert forall|j: int| 0 <= j < i - pos implies is_ws(#[trigger] rest[j]) by {
                assert(rest[j] == s@[j + pos]);
            }
            if i < s@.len() {
                assert(rest[i - pos] == s@[i as int]);
            }
            lemma_trim_start_at(rest, i - pos);
            assert(rest.skip(i - pos) =~= s@.skip(i as int));
        }
        if i == s.len() {
            proof {
                assert(words(rest) == Seq::<Seq<char>>::empty());
                assert(done + words(rest) =~= done);
            }
            return r;
        }
        let mut k: usize = i;
        while k < s.len() && !is_whitespace(s[k])
            invariant
                i <= k <= s@.len(),
                forall|j: int| i <= j < k ==> !is_ws(#[trigger] s@[j]),
            decreases s@.len() - k,
        {
            k += 1;
        }
        let ghost t = s@.skip(i as int);
        proof {
            assert forall|j: int| 0 <= j < k - i implies !is_ws(#[trigger] t[j]) by {
                assert(t[j] == s@[j + i]);
            }
            if k < s@.len() {
                assert(t[k - i] == s@[k as int]);
            }
            lemma_word_len_at(t, k - i);
            assert(t.take(k - i) =~= s@.subrange(i as int, k as int));
            assert(t.skip(k - i) =~= s@.skip(k as int));
            assert(words(rest) == seq![t.take(k - i)] + words(s@.skip(k as int)));
        }
        let w = slice_chars(s, i, k);
        r.push(w);
        proof {
            let old_done = done;
            done = done.push(t.take(k - i));
            assert(done + words(s@.skip(k as int)) =~= old_done + words(rest));
        }
        pos = k;
    }
}

/// A text beginning with white space has the words of its rest.
pub proof fn lemma_words_skip_ws(c: char, s: Seq<char>)
    requires
        is_ws(c),
    ensures
        words(seq![c] + s) == words(s),
{
    let x = seq![c] + s;
    assert(x.drop_first() =~= s);
    assert(trim_start(x) == trim_start(s));
}

/// A word, a white-space character and more text: the word, then the words
/// of the rest.
pub proof fn lemma_words_first(w: Seq<char>, c: char, s: Seq<char>)
    requires
        w.len() > 0,
        forall|j: int| 0 <= j < w.len() ==> !is_ws(#[trigger] w[j]),
        is_ws(c),
    ensures
        words(w + seq![c] + s) == seq![w] + words(s),
{
    let x = w + seq![c] + s;
    assert(x[0] == w[0]);
    assert(trim_start(x) == x);
    assert forall|j: int| 0 <= j < w.len() implies !is_ws(#[trigger] x[j]) by {
        assert(x[j] == w[j]);
    }
    assert(x[w.len() as int] == c);
    lemma_word_len_at(x, w.len() as int);
    assert(x.take(w.len() as int) =~= w);
    assert(x.skip(w.len() as int) =~= seq![c] + s);
    lemma_words_skip_ws(c, s);
}

/// Every word is non-empty and free of white space.
pub proof fn lemma_words_shape(s: Seq<char>)
    ensures
        forall|i: int|
            0 <= i < words(s).len() ==> (#[trigger] words(s)[i]).len() > 0 && forall|j: int|
                0 <= j < words(s)[i].len() ==> !is_ws(#[trigger] words(s)[i][j]),
    decreases s.len(),
{
    let t = trim_start(s);
    lemma_trim_start_len(s);
    if t.len() > 0 {
        let n = word_len(t);
        lemma_word_len(t);
        assert(n >= 1);
        lemma_words_shape(t.skip(n as int));
        let rest = words(t.skip(n as int));
        assert(words(s) == seq![t.take(n as int)] + rest);
        assert forall|i: int| 0 <= i < words(s).len() implies (#[trigger] words(s)[i]).len() > 0 && forall|j: int|
            0 <= j < words(s)[i].len() ==> !is_ws(#[trigger] words(s)[i][j]) by {
            if i == 0 {
                assert(words(s)[0] == t.take(n as int));
                assert forall|j: int| 0 <= j < words(s)[i].len() implies !is_ws(#[trigger] words(s)[i][j]) by {
                    assert(words(s)[0][j] == t[j]);
                }
            } else {
                assert(words(s)[i] == rest[i - 1]);
            }
        }
    }
}

/// The strings of `ws` separated by `sep`.
pub open spec fn join(ws: Seq<Seq<char>>, sep: Seq<char>) -> Seq<char>
    decreases ws.len(),
{
    if ws.len() == 0 {
        seq![]
    } else if ws.len() == 1 {
        ws[0]
    } else {
        join(ws.drop_last(), sep) + sep + ws.last()
    }
}

/// The last character of a join is that of its last part.
pub proof fn lemma_join_last(ws: Seq<Seq<char>>, sep: Seq<char>)
    requires
        ws.len() > 0,
        ws.last().len() > 0,
    ensures
        join(ws, sep).len() > 0,
        join(ws, sep).last() == ws.last().last(),
{
    if ws.len() == 1 {
        assert(ws[0] == ws.last());
    }
}

/// `[T]::join(" ")` over `ws[from..]`.
pub fn join_words(ws: &Vec<Vec<char>>, from: usize) -> (r: Vec<char>)
    requires
        from <= ws@.len(),
    ensures
        r@ == join(ws@.skip(from as int).map_values(|w: Vec<char>| w@), seq![' ']),
{
    let ghost views = ws@.skip(from as int).map_values(|w: Vec<char>| w@);
    let mut r: Vec<char> = Vec::new();
    let mut i: usize = from;
    while i < ws.len()
        invariant
            from <= i <= ws@.len(),
            views == ws@.skip(from as int).map_values(|w: Vec<char>| w@),
            r@ == join(views.take(i - from), seq![' ']),
        decreases ws@.len() - i,
    {
        let ghost before = views.take(i - from);
        if i > from {
            r.push(' ');
        }
        push_all(&mut r, ws[i].as_slice());
        i += 1;
        proof {
            let now = views.take(i - from);
            assert(now.drop_last() =~= before);
            assert(now.last() == ws@[i - 1]@);
            if i - from == 1 {
                assert(r@ =~= join(now, seq![' ']));
            } else {
                assert(r@ =~= join(now, seq![' ']));
            }
        }
    }
    assert(views.take(ws@.len() - from) =~= views);
    r
}

// ---------------------------------------------------------------------------
// Lines (`str::lines`)
// ---------------------------------------------------------------------------

/// Number of leading characters of `s` before the first line feed.
pub open spec fn nl_pos(s: Seq<char>) -> nat
    decreases s.len(),
{
    if s.len() > 0 && s[0] != '\n' {
        1 + nl_pos(s.drop_first())
    } else {
        0
    }
}

pub proof fn lemma_nl_pos(s: Seq<char>)
    ensures
        nl_pos(s) <= s.len(),
        forall|j: int| 0 <= j < nl_pos(s) ==> #[trigger] s[j] != '\n',
        nl_pos(s) < s.len() ==> s[nl_pos(s) as int] == '\n',
    decreases s.len(),
{
    if s.len() > 0 && s[0] != '\n' {
        let t = s.drop_first();
        lemma_nl_pos(t);
        assert forall|j: int| 0 <= j < nl_pos(s) implies #[trigger] s[j] != '\n' by {
            if j > 0 {
                assert(s[j] == t[j - 1]);
            }
        }
        if nl_pos(s) < s.len() {
            assert(s[nl_pos(s) as int] == t[nl_pos(t) as int]);
        }
    }
}

pub proof fn lemma_nl_pos_at(s: Seq<char>, k: int)
    requires
        0 <= k <= s.len(),
        forall|j: int| 0 <= j < k ==> #[trigger] s[j] != '\n',
        k < s.len() ==> s[k] == '\n',
    ensures
        nl_pos(s) == k,
    decreases s.len(),
{
    if s.len() > 0 && s[0] != '\n' {
        let t = s.drop_first();
        assert forall|j: int| 0 <= j < k - 1 implies #[trigger] t[j] != '\n' by {
            assert(t[j] == s[j + 1]);
        }
        if k - 1 < t.len() {
            assert(t[k - 1] == s[k]);
        }
        lemma_nl_pos_at(t, k - 1);
    } else {
        if k > 0 {
            assert(s[0] != '\n');
        }
    }
}

/// A line that ended in a line feed loses one trailing carriage return.
pub open spec fn strip_cr(s: Seq<char>) -> Seq<char> {
    if s.len() > 0 && s.last() == '\r' {
        s.drop_last()
    } else {
        s
    }
}

/// `str::lines`: split at `\n` (a `\r` right before it is dropped); a final
/// empty line is not produced.
pub open spec fn lines(s: Seq<char>) -> Seq<Seq<char>>
    decreases s.len(),
{
    if s.len() == 0 {
        seq![]
    } else {
        let k = nl_pos(s);
        proof {
            lemma_nl_pos(s);
        }
        if k == s.len() {
            seq![s]
        } else {
            seq![strip_cr(s.take(k as int))] + lines(s.skip((k + 1) as int))
        }
    }
}

/// The first line of a text whose first line feed is at `k`.
pub proof fn lemma_lines_step(s: Seq<char>, k: int)
    requires
        0 <= k < s.len(),
        forall|j: int| 0 <= j < k ==> #[trigger] s[j] != '\n',
        s[k] == '\n',
    ensures
        lines(s) == seq![strip_cr(s.take(k))] + lines(s.skip(k + 1)),
{
    lemma_nl_pos_at(s, k);
}

/// `str::lines`, on characters.
pub fn split_lines(s: &[char]) -> (r: Vec<Vec<char>>)
    ensures
        r@.len() == lines(s@).len(),
        forall|i: int| 0 <= i < r@.len() ==> (#[trigger] r@[i])@ == lines(s@)[i],
{
    let mut r: Vec<Vec<char>> = Vec::new();
    let mut pos: usize = 0;
    let ghost done: Seq<Seq<char>> = seq![];
    assert(s@.skip(0) =~= s@);
    assert(done + lines(s@) =~= lines(s@));
    while pos < s.len()
        invariant
            pos <= s@.len(),
            r@.len() == done.len(),
            forall|i: int| 0 <= i < r@.len() ==> (#[trigger] r@[i])@ == done[i],
            done + lines(s@.skip(pos as int)) == lines(s@),
        decreases s@.len() - pos,
    {
        let ghost rest = s@.skip(pos as int);
        let mut k: usize = pos;
        while k < s.len() && s[k] != '\n'
            invariant
                pos <= k <= s@.len(),
                forall|j: int| pos <= j < k ==> #[trigger] s@[j] != '\n',
            decreases s@.len() - k,
        {
            k += 1;
        }
        proof {
            assert forall|j: int| 0 <= j < k - pos implies #[trigger] rest[j] != '\n' by {
                assert(rest[j] == s@[j + pos]);
            }
            if k < s@.len() {
                assert(rest[k - pos] == s@[k as int]);
            }
            lemma_nl_pos_at(rest, k - pos);
        }
        if k == s.len() {
            let line = slice_chars(s, pos, k);
            r.push(line);
            proof {
                assert(line@ =~= rest);
                assert(lines(rest) == seq![rest]);
                let old_done = done;
                done = done.push(rest);
                assert(lines(s@.skip(k as int)) == Seq::<Seq<char>>::empty());
                assert(done + lines(s@.skip(k as int)) =~= old_done + lines(rest));
            }
            pos = k;
        } else {
            let end = if k > pos && s[k - 1] == '\r' {
                k - 1
            } else {
                k
            };
            let line = slice_chars(s, pos, end);
            r.push(line);
            proof {
                assert(rest.take(k - pos) =~= s@.subrange(pos as int, k as int));
                assert(line@ =~= strip_cr(rest.take(k - pos)));
                assert(rest.skip(k - pos + 1) =~= s@.skip(k + 1));
                let old_done = done;
                done = done.push(line@);
                assert(done + lines(s@.skip(k + 1)) =~= old_done + lines(rest));
            }
            pos = k + 1;
        }
    }
    proof {
        assert(lines(s@.skip(pos as int)) == Seq::<Seq<char>>::empty());
        assert(done + lines(s@.skip(pos as int)) =~= done);
    }
    r
}

// ---------------------------------------------------------------------------
// Decimal numbers
// ---------------------------------------------------------------------------

/// The ASCII digit for `d < 10`.
pub open spec fn digit_char(d: nat) -> char {
    ((d + 48) as u8) as char
}

/// Decimal representation of `n` without leading zeros (`Display` of an
/// unsigned integer).
pub open spec fn decimal(n: nat) -> Seq<char>
    decreases n,
{
    if n < 10 {
        seq![digit_char(n)]
    } else {
        decimal(n / 10) + seq![digit_char(n % 10)]
    }
}

/// `Display` of a signed integer.
pub open spec fn signed_decimal(n: int) -> Seq<char> {
    if n < 0 {
        seq!['-'] + decimal((-n) as nat)
    } else {
        decimal(n as nat)
    }
}

fn digit(d: u64) -> (c: char)
    requires
        d < 10,
    ensures
        c == digit_char(d as nat),
{
    let b: u8 = (d as u8) + 48;
    b as char
}

/// Appends the decimal digits of `n` to `out`.
pub fn push_decimal(out: &mut Vec<char>, n: u64)
    ensures
        final(out)@ == old(out)@ + decimal(n as nat),
    decreases n,
{
    if n < 10 {
        out.push(digit(n));
    } else {
        push_decimal(out, n / 10);
        out.push(digit(n % 10));
        assert(decimal(n as nat) == decimal((n / 10) as nat) + seq![digit_char((n % 10) as nat)]);
    }
}

/// Appends the decimal form of a signed number to `out`.
pub fn push_signed_decimal(out: &mut Vec<char>, n: i64)
    ensures
        final(out)@ == old(out)@ + signed_decimal(n as int),
{
    if n < 0 {
        out.push('-');
        let m: u64 = if n == i64::MIN {
            9223372036854775808u64
        } else {
            (-n) as u64
        };
        push_decimal(out, m);
    } else {
        push_decimal(out, n as u64);
    }
}

/// `n.to_string()` for an unsigned number.
pub fn decimal_string(n: u64) -> (s: String)
    ensures
        s@ == decimal(n as nat),
{
    let mut v: Vec<char> = Vec::new();
    push_decimal(&mut v, n);
    string_from_chars(v.as_slice())
}

/// `n.to_string()` for a signed number.
pub fn signed_decimal_string(n: i64) -> (s: String)
    ensures
        s@ == signed_decimal(n as int),
{
    let mut v: Vec<char> = Vec::new();
    push_signed_decimal(&mut v, n);
    string_from_chars(v.as_slice())
}

/// Value of the ASCII digits `s`.
pub open spec fn digits_value(s: Seq<char>) -> nat
    decreases s.len(),
{
    if s.len() == 0 {
        0
    } else {
        digits_value(s.drop_last()) * 10 + ((s.last() as u32) - 48) as nat
    }
}

pub open spec fn is_digit(c: char) -> bool {
    '0' <= c <= '9'
}

pub open spec fn all_digits(s: Seq<char>) -> bool {
    forall|i: int| 0 <= i < s.len() ==> is_digit(#[trigger] s[i])
}

/// `str::parse` into an unsigned integer type whose largest value is `max`:
/// an optional `+`, then one or more ASCII digits, and a value that fits.
pub open spec fn parse_unsigned(s: Seq<char>, max: nat) -> Option<nat> {
    let d = if s.len() > 0 && s[0] == '+' {
        s.drop_first()
    } else {
        s
    };
    if d.len() > 0 && all_digits(d) && digits_value(d) <= max {
        Some(digits_value(d))
    } else {
        None
    }
}

proof fn lemma_digits_value_push(s: Seq<char>, c: char)
    ensures
        digits_value(s.push(c)) == digits_value(s) * 10 + ((c as u32) - 48) as nat,
{
    assert(s.push(c).drop_last() =~= s);
}

proof fn lemma_digits_value_monotone(s: Seq<char>, i: int)
    requires
        all_digits(s),
        0 <= i <= s.len(),
    ensures
        digits_value(s.take(i)) <= digits_value(s),
    decreases s.len() - i,
{
    if i < s.len() {
        lemma_digits_value_monotone(s, i + 1);
        assert(s.take(i + 1) =~= s.take(i).push(s[i]));
        lemma_digits_value_push(s.take(i), s[i]);
    } else {
        assert(s.take(i) =~= s);
    }
}

/// `str::parse::<u64>` restricted to results no larger than `max`
/// (`max` is the largest value of the target type).
pub fn parse_unsigned_chars(s: &[char], max: u64) -> (r: Option<u64>)
    ensures
        match parse_unsigned(s@, max as nat) {
            Some(v) => r == Some(v as u64),
            None => r is None,
        },
{
    let start: usize = if s.len() > 0 && s[0] == '+' {
        1
    } else {
        0
    };
    let ghost d = if s@.len() > 0 && s@[0] == '+' {
        s@.drop_first()
    } else {
        s@
    };
    assert(d =~= s@.skip(start as int));
    if start >= s.len() {
        return None;
    }
    let mut acc: u64 = 0;
    let mut i: usize = start;
    while i < s.len()
        invariant
            start <= i <= s@.len(),
            d =~= s@.skip(start as int),
            d == (if s@.len() > 0 && s@[0] == '+' {
                s@.drop_first()
            } else {
                s@
            }),
            d.len() > 0,
            forall|j: int| start <= j < i ==> is_digit(#[trigger] s@[j]),
            acc as nat == digits_value(s@.subrange(start as int, i as int)),
            acc <= max,
        decreases s@.len() - i,
    {
        let c = s[i];
        if !('0' <= c && c <= '9') {
            proof {
                assert(d[i - start] == c);
                assert(!is_digit(d[i - start]));
                assert(!all_digits(d));
            }
            return None;
        }
        let dv: u64 = ((c as u32) - 48) as u64;
        proof {
            assert(s@.subrange(start as int, i + 1) =~= s@.subrange(start as int, i as int).push(
                c,
            ));
            lemma_digits_value_push(s@.subrange(start as int, i as int), c);
        }
        let next: Option<u64> = match acc.checked_mul(10) {
            Some(m) => m.checked_add(dv),
            None => None,
        };
        let too_big = match next {
            Some(v) => v > max,
            None => true,
        };
        if too_big {
            proof {
                assert(acc * 10 + dv > max);
                let full = s@.skip(start as int);
                if all_digits(full) {
                    lemma_digits_value_monotone(full, i + 1 - start);
                    assert(full.take(i + 1 - start) =~= s@.subrange(start as int, i + 1));
                }
            }
            return None;
        }
        let v = next.unwrap();
        acc = v;
        i += 1;
    }
    proof {
        assert(s@.subrange(start as int, s@.len() as int) =~= d);
    }
    Some(acc)
}

// ---------------------------------------------------------------------------
// Splitting at a character (`str::split`)
// ---------------------------------------------------------------------------

/// Number of leading characters of `s` different from `c`.
pub open spec fn run_len(s: Seq<char>, c: char) -> nat
    decreases s.len(),
{
    if s.len() > 0 && s[0] != c {
        1 + run_len(s.drop_first(), c)
    } else {
        0
    }
}

pub proof fn lemma_run_len(s: Seq<char>, c: char)
    ensures
        run_len(s, c) <= s.len(),
        forall|j: int| 0 <= j < run_len(s, c) ==> #[trigger] s[j] != c,
        run_len(s, c) < s.len() ==> s[run_len(s, c) as int] == c,
    decreases s.len(),
{
    if s.len() > 0 && s[0] != c {
        let t = s.drop_first();
        lemma_run_len(t, c);
        assert forall|j: int| 0 <= j < run_len(s, c) implies #[trigger] s[j] != c by {
            if j > 0 {
                assert(s[j] == t[j - 1]);
            }
        }
        if run_len(s, c) < s.len() {
            assert(s[run_len(s, c) as int] == t[run_len(t, c) as int]);
        }
    }
}

pub proof fn lemma_run_len_at(s: Seq<char>, c: char, k: int)
    requires
        0 <= k <= s.len(),
        forall|j: int| 0 <= j < k ==> #[trigger] s[j] != c,
        k < s.len() ==> s[k] == c,
    ensures
        run_len(s, c) == k,
    decreases s.len(),
{
    if s.len() > 0 && s[0] != c {
        let t = s.drop_first();
        assert forall|j: int| 0 <= j < k - 1 implies #[trigger] t[j] != c by {
            assert(t[j] == s[j + 1]);
        }
        if k - 1 < t.len() {
            assert(t[k - 1] == s[k]);
        }
        lemma_run_len_at(t, c, k - 1);
    } else {
        if k > 0 {
            assert(s[0] != c);
        }
    }
}

/// Position of the first `c` in `v` at or after `from`, or `v.len()`.
pub fn find_char(v: &[char], from: usize, c: char) -> (k: usize)
    requires
        from <= v@.len(),
    ensures
        from <= k <= v@.len(),
        k - from == run_len(v@.skip(from as int), c),
{
    let mut k: usize = from;
    while k < v.len() && v[k] != c
        invariant
            from <= k <= v@.len(),
            forall|j: int| from <= j < k ==> #[trigger] v@[j] != c,
        decreases v@.len() - k,
    {
        k += 1;
    }
    proof {
        let t = v@.skip(from as int);
        assert forall|j: int| 0 <= j < k - from implies #[trigger] t[j] != c by {
            assert(t[j] == v@[j + from]);
        }
        if k < v@.len() {
            assert(t[k - from] == v@[k as int]);
        }
        lemma_run_len_at(t, c, k - from);
    }
    k
}

/// `str::split(c)`: the pieces between occurrences of `c` (always at least one).
pub open spec fn split_at_char(s: Seq<char>, c: char) -> Seq<Seq<char>>
    decreases s.len(),
{
    let k = run_len(s, c);
    proof {
        lemma_run_len(s, c);
    }
    if k >= s.len() {
        seq![s]
    } else {
        seq![s.take(k as int)] + split_at_char(s.skip((k + 1) as int), c)
    }
}

/// `str::split(c)`, on characters.
pub fn split_chars(s: &[char], c: char) -> (r: Vec<Vec<char>>)
    ensures
        r@.len() == split_at_char(s@, c).len(),
        forall|i: int| 0 <= i < r@.len() ==> (#[trigger] r@[i])@ == split_at_char(s@, c)[i],
{
    let mut r: Vec<Vec<char>> = Vec::new();
    let mut pos: usize = 0;
    let ghost done: Seq<Seq<char>> = seq![];
    assert(s@.skip(0) =~= s@);
    assert(done + split_at_char(s@, c) =~= split_at_char(s@, c));
    loop
        invariant
            pos <= s@.len(),
            r@.len() == done.len(),
            forall|i: int| 0 <= i < r@.len() ==> (#[trigger] r@[i])@ == done[i],
            done + split_at_char(s@.skip(pos as int), c) == split_at_char(s@, c),
        decreases s@.len() - pos,
    {
        let ghost rest = s@.skip(pos as int);
        let k = find_char(s, pos, c);
        let piece = slice_chars(s, pos, k);
        r.push(piece);
        if k == s.len() {
            proof {
                assert(piece@ =~= rest);
                assert(split_at_char(rest, c) == seq![rest]);
                assert(done.push(rest) =~= done + split_at_char(rest, c));
            }
            return r;
        }
        proof {
            assert(rest.take(k - pos) =~= piece@);
            assert(rest.skip(k - pos + 1) =~= s@.skip(k + 1));
            let old_done = done;
            done = done.push(piece@);
            assert(done + split_at_char(s@.skip(k + 1), c) =~= old_done + split_at_char(rest, c));
        }
        pos = k + 1;
    }
}

/// `s` without its trailing `c` characters (`str::trim_end_matches(c)`).
pub open spec fn trim_end_char(s: Seq<char>, c: char) -> Seq<char>
    decreases s.len(),
{
    if s.len() > 0 && s.last() == c {
        trim_end_char(s.drop_last(), c)
    } else {
        s
    }
}

proof fn lemma_trim_end_char_at(s: Seq<char>, c: char, n: int)
    requires
        0 <= n <= s.len(),
        forall|j: int| n <= j < s.len() ==> #[trigger] s[j] == c,
        n > 0 ==> s[n - 1] != c,
    ensures
        trim_end_char(s, c) == s.take(n),
    decreases s.len(),
{
    if s.len() > 0 && s.last() == c {
        lemma_trim_end_char_at(s.drop_last(), c, n);
        assert(s.drop_last().take(n) =~= s.take(n));
    } else {
        assert(s.take(s.len() as int) =~= s);
    }
}

/// `str::trim_end_matches(c)`, on characters.
pub fn trim_end_chars(s: &[char], c: char) -> (r: Vec<char>)
    ensures
        r@ == trim_end_char(s@, c),
{
    let mut n = s.len();
    while n > 0 && s[n - 1] == c
        invariant
            n <= s@.len(),
            forall|j: int| n <= j < s@.len() ==> #[trigger] s@[j] == c,
        decreases n,
    {
        n -= 1;
    }
    proof {
        lemma_trim_end_char_at(s@, c, n as int);
    }
    slice_chars(s, 0, n)
}

/// `s` with leading `c` characters removed (`str::trim_start_matches(c)`).
pub open spec fn trim_start_char(s: Seq<char>, c: char) -> Seq<char>
    decreases s.len(),
{
    if s.len() > 0 && s[0] == c {
        trim_start_char(s.drop_first(), c)
    } else {
        s
    }
}

proof fn lemma_trim_start_char_at(s: Seq<char>, c: char, n: int)
    requires
        0 <= n <= s.len(),
        forall|j: int| 0 <= j < n ==> #[trigger] s[j] == c,
        n < s.len() ==> s[n] != c,
    ensures
        trim_start_char(s, c) == s.skip(n),
    decreases s.len(),
{
    if s.len() > 0 && s[0] == c {
        let t = s.drop_first();
        assert forall|j: int| 0 <= j < n - 1 implies #[trigger] t[j] == c by {
            assert(t[j] == s[j + 1]);
        }
        if n - 1 < t.len() {
            assert(t[n - 1] == s[n]);
        }
        lemma_trim_start_char_at(t, c, n - 1);
        assert(t.skip(n - 1) =~= s.skip(n));
    } else {
        if n > 0 {
            assert(s[0] == c);
        }
        assert(s.skip(0) =~= s);
    }
}

/// `str::trim_start_matches(c)`, on characters.
pub fn trim_start_chars(s: &[char], c: char) -> (r: Vec<char>)
    ensures
        r@ == trim_start_char(s@, c),
{
    let mut n: usize = 0;
    while n < s.len() && s[n] == c
        invariant
            n <= s@.len(),
            forall|j: int| 0 <= j < n ==> #[trigger] s@[j] == c,
        decreases s@.len() - n,
    {
        n += 1;
    }
    proof {
        lemma_trim_start_char_at(s@, c, n as int);
    }
    slice_chars(s, n, s.len())
}

/// Whether `s` begins with `p`.
pub open spec fn starts_with(s: Seq<char>, p: Seq<char>) -> bool {
    p.len() <= s.len() && s.take(p.len() as int) == p
}

/// `str::strip_prefix`.
pub open spec fn strip_prefix(s: Seq<char>, p: Seq<char>) -> Option<Seq<char>> {
    if starts_with(s, p) {
        Some(s.skip(p.len() as int))
    } else {
        None
    }
}

/// Whether `s` begins with `p`.
pub fn has_prefix(s: &[char], p: &[char]) -> (b: bool)
    ensures
        b == starts_with(s@, p@),
{
    if p.len() > s.len() {
        return false;
    }
    let mut i: usize = 0;
    while i < p.len()
        invariant
            p@.len() <= s@.len(),
            i <= p@.len(),
            forall|j: int| 0 <= j < i ==> s@[j] == p@[j],
        decreases p@.len() - i,
    {
        if s[i] != p[i] {
            assert(s@.take(p@.len() as int)[i as int] != p@[i as int]);
            return false;
        }
        i += 1;
    }
    assert(s@.take(p@.len() as int) =~= p@);
    true
}

/// Whether the characters of `s` begin with the literal `lit`.
pub fn has_str_prefix(s: &[char], lit: &str) -> (b: bool)
    ensures
        b == starts_with(s@, lit@),
{
    let p = chars_of(lit);
    has_prefix(s, p.as_slice())
}

/// `str::trim_start_matches(lit)`: repeatedly removes a leading `p`.
pub open spec fn trim_start_str(s: Seq<char>, p: Seq<char>) -> Seq<char>
    decreases s.len(),
{
    if p.len() > 0 && starts_with(s, p) {
        trim_start_str(s.skip(p.len() as int), p)
    } else {
        s
    }
}

/// `str::trim_start_matches(lit)`, on characters.
pub fn trim_start_lit(s: &[char], lit: &str) -> (r: Vec<char>)
    ensures
        r@ == trim_start_str(s@, lit@),
{
    let p = chars_of(lit);
    let mut cur = slice_chars(s, 0, s.len());
    assert(cur@ =~= s@);
    if p.len() == 0 {
        return cur;
    }
    while has_prefix(cur.as_slice(), p.as_slice())
        invariant
            p@ == lit@,
            p@.len() > 0,
            trim_start_str(cur@, p@) == trim_start_str(s@, p@),
        decreases cur@.len(),
    {
        let n = cur.len();
        cur = slice_chars(cur.as_slice(), p.len(), n);
    }
    cur
}

// ---------------------------------------------------------------------------
// Ordering of strings
// ---------------------------------------------------------------------------

/// Lexicographic order by code point (for UTF-8 strings this is the byte
/// order `Ord for String` uses).
pub open spec fn chars_lt(a: Seq<char>, b: Seq<char>) -> bool
    decreases a.len(),
{
    if a.len() == 0 {
        b.len() > 0
    } else if b.len() == 0 {
        false
    } else if a[0] != b[0] {
        (a[0] as u32) < (b[0] as u32)
    } else {
        chars_lt(a.drop_first(), b.drop_first())
    }
}

pub proof fn lemma_chars_lt_irreflexive(a: Seq<char>)
    ensures
        !chars_lt(a, a),
    decreases a.len(),
{
    if a.len() > 0 {
        lemma_chars_lt_irreflexive(a.drop_first());
    }
}

pub proof fn lemma_chars_lt_total(a: Seq<char>, b: Seq<char>)
    ensures
        a == b || chars_lt(a, b) || chars_lt(b, a),
        !(chars_lt(a, b) && chars_lt(b, a)),
    decreases a.len(),
{
    if a.len() > 0 && b.len() > 0 {
        if a[0] == b[0] {
            lemma_chars_lt_total(a.drop_first(), b.drop_first());
            if a.drop_first() == b.drop_first() {
                assert(a =~= seq![a[0]] + a.drop_first());
                assert(b =~= seq![b[0]] + b.drop_first());
            }
        } else {
            vstd::utf8::char_u32_cast(a[0], a[0] as u32);
            vstd::utf8::char_u32_cast(b[0], b[0] as u32);
        }
    } else if a.len() == 0 && b.len() == 0 {
        assert(a =~= b);
    }
}

pub proof fn lemma_chars_lt_transitive(a: Seq<char>, b: Seq<char>, c: Seq<char>)
    requires
        chars_lt(a, b),
        chars_lt(b, c),
    ensures
        chars_lt(a, c),
    decreases a.len(),
{
    if a.len() > 0 && b.len() > 0 && c.len() > 0 {
        if a[0] == b[0] && b[0] == c[0] {
            lemma_chars_lt_transitive(a.drop_first(), b.drop_first(), c.drop_first());
        }
    }
}

/// Whether `a` comes before `b` (`a < b` for strings).
pub fn less_than(a: &[char], b: &[char]) -> (r: bool)
    ensures
        r == chars_lt(a@, b@),
{
    let mut i: usize = 0;
    assert(a@.skip(0) =~= a@);
    assert(b@.skip(0) =~= b@);
    while i < a.len() && i < b.len() && a[i] == b[i]
        invariant
            i <= a@.len(),
            i <= b@.len(),
            forall|j: int| 0 <= j < i ==> a@[j] == b@[j],
            chars_lt(a@, b@) == chars_lt(a@.skip(i as int), b@.skip(i as int)),
        decreases a@.len() - i,
    {
        proof {
            let x = a@.skip(i as int);
            let y = b@.skip(i as int);
            assert(x[0] == a@[i as int] && y[0] == b@[i as int]);
            assert(x.drop_first() =~= a@.skip(i + 1));
            assert(y.drop_first() =~= b@.skip(i + 1));
        }
        i += 1;
    }
    proof {
        let x = a@.skip(i as int);
        let y = b@.skip(i as int);
        if i < a@.len() && i < b@.len() {
            assert(x[0] == a@[i as int] && y[0] == b@[i as int]);
        }
    }
    if i == a.len() {
        i < b.len()
    } else if i == b.len() {
        false
    } else {
        (a[i] as u32) < (b[i] as u32)
    }
}

} // verus!
