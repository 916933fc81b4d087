//! Character-level text helpers shared by the report parsers: Unicode
//! whitespace, trimming, line splitting, word splitting and literal search.
use vstd::prelude::*;

verus! {

/// The Unicode `White_Space` property (the set `char::is_whitespace` and the
/// regular-expression class `\s` use).
pub open spec fn is_white_space(c: char) -> bool {
    let u = c as u32;
    ||| 0x9 <= u <= 0xd
    ||| u == 0x20
    ||| u == 0x85
    ||| u == 0xa0
    ||| u == 0x1680
    ||| 0x2000 <= u <= 0x200a
    ||| u == 0x2028
    ||| u == 0x2029
    ||| u == 0x202f
    ||| u == 0x205f
    ||| u == 0x3000
}

/// Executable test for [`is_white_space`].
pub fn is_white_space_char(c: char) -> (r: bool)
    ensures
        r == is_white_space(c),
{
    let u = c as u32;
    (0x9 <= u && u <= 0xd) || u == 0x20 || u == 0x85 || u == 0xa0 || u == 0x1680 || (0x2000 <= u
        && u <= 0x200a) || u == 0x2028 || u == 0x2029 || u == 0x202f || u == 0x205f || u == 0x3000
}

/// Number of whitespace characters at the start of `s`.
pub open spec fn ws_prefix_len(s: Seq<char>) -> nat
    decreases s.len(),
{
    if s.len() > 0 && is_white_space(s[0]) {
        1 + ws_prefix_len(s.drop_first())
    } else {
        0
    }
}

/// Number of whitespace characters at the end of `s`.
pub open spec fn ws_suffix_len(s: Seq<char>) -> nat
    decreases s.len(),
{
    if s.len() > 0 && is_white_space(s.last()) {
        1 + ws_suffix_len(s.drop_last())
    } else {
        0
    }
}

/// Number of non-whitespace characters at the start of `s`.
pub open spec fn word_prefix_len(s: Seq<char>) -> nat
    decreases s.len(),
{
    if s.len() > 0 && !is_white_space(s[0]) {
        1 + word_prefix_len(s.drop_first())
    } else {
        0
    }
}

/// `s` without its leading and trailing whitespace (what `str::trim` gives).
pub open spec fn trim(s: Seq<char>) -> Seq<char> {
    let a = ws_prefix_len(s);
    if a >= s.len() {
        Seq::empty()
    } else {
        s.subrange(a as int, s.len() - ws_suffix_len(s))
    }
}

pub proof fn lemma_ws_prefix_len_bound(s: Seq<char>)
    ensures
        ws_prefix_len(s) <= s.len(),
        ws_prefix_len(s) < s.len() ==> !is_white_space(s[ws_prefix_len(s) as int]),
        forall|i: int| 0 <= i < ws_prefix_len(s) ==> is_white_space(#[trigger] s[i]),
    decreases s.len(),
{
    if s.len() > 0 && is_white_space(s[0]) {
        lemma_ws_prefix_len_bound(s.drop_first());
        assert forall|i: int| 0 <= i < ws_prefix_len(s) implies is_white_space(#[trigger] s[i]) by {
            if i > 0 {
                assert(s[i] == s.drop_first()[i - 1]);
            }
        }
    }
}

pub proof fn lemma_word_prefix_len_bound(s: Seq<char>)
    ensures
        word_prefix_len(s) <= s.len(),
        word_prefix_len(s) < s.len() ==> is_white_space(s[word_prefix_len(s) as int]),
        forall|i: int| 0 <= i < word_prefix_len(s) ==> !is_white_space(#[trigger] s[i]),
    decreases s.len(),
{
    if s.len() > 0 && !is_white_space(s[0]) {
        lemma_word_prefix_len_bound(s.drop_first());
        assert forall|i: int| 0 <= i < word_prefix_len(s) implies !is_white_space(
            #[trigger] s[i],
        ) by {
            if i > 0 {
                assert(s[i] == s.drop_first()[i - 1]);
            }
        }
    }
}

/// The whitespace-separated words of `s` (what `str::split_whitespace` yields).
pub open spec fn words(s: Seq<char>) -> Seq<Seq<char>>
    decreases s.len(),
{
    let a = ws_prefix_len(s);
    if a >= s.len() {
        Seq::empty()
    } else {
        let t = s.skip(a as int);
        let w = word_prefix_len(t);
        if 0 < w <= t.len() {
            seq![t.take(w as int)] + words(t.skip(w as int))
        } else {
            Seq::empty()
        }
    }
}

/// Length of the prefix of `s` that holds no line feed.
pub open spec fn line_prefix_len(s: Seq<char>) -> nat
    decreases s.len(),
{
    if s.len() > 0 && s[0] != '\n' {
        1 + line_prefix_len(s.drop_first())
    } else {
        0
    }
}

/// `s` without one trailing carriage return.
pub open spec fn strip_cr(s: Seq<char>) -> Seq<char> {
    if s.len() > 0 && s.last() == '\r' {
        s.drop_last()
    } else {
        s
    }
}

/// The lines of `s` as `str::lines` yields them: split at each line feed, a
/// carriage return before a line feed removed, and no empty line after a
/// final line feed.
pub open spec fn lines(s: Seq<char>) -> Seq<Seq<char>>
    decreases s.len(),
{
    if s.len() == 0 {
        Seq::empty()
    } else {
        let k = line_prefix_len(s);
        if k >= s.len() {
            seq![s]
        } else {
            seq![strip_cr(s.take(k as int))] + lines(s.skip(k as int + 1))
        }
    }
}

/// `lit` occurs in `s` at position `i`.
pub open spec fn occurs_at(s: Seq<char>, i: int, lit: Seq<char>) -> bool {
    0 <= i && i + lit.len() <= s.len() && s.subrange(i, i + lit.len()) == lit
}

/// `s` begins with `lit`.
pub open spec fn starts_with(s: Seq<char>, lit: Seq<char>) -> bool {
    occurs_at(s, 0, lit)
}

/// `lit` occurs somewhere in `s`.
pub open spec fn contains(s: Seq<char>, lit: Seq<char>) -> bool {
    exists|i: int| occurs_at(s, i, lit)
}

/// Copies the characters of `s` into a vector.
pub fn to_chars(s: &str) -> (r: Vec<char>)
    ensures
        r@ == s@,
{
    let mut r: Vec<char> = Vec::new();
    for c in it: s.chars()
        invariant
            r@ == it.seq().take(it.index() as int),
            it.seq() == s@,
    {
        r.push(c);
    }
    r
}

/// Copies `v[lo..hi]`.
pub fn copy_range(v: &Vec<char>, lo: usize, hi: usize) -> (r: Vec<char>)
    requires
        lo <= hi <= v.len(),
    ensures
        r@ == v@.subrange(lo as int, hi as int),
{
    let mut r: Vec<char> = Vec::new();
    let mut i = lo;
    while i < hi
        invariant
            lo <= i <= hi <= v.len(),
            r@ == v@.subrange(lo as int, i as int),
        decreases hi - i,
    {
        r.push(v[i]);
        i += 1;
    }
    r
}

/// Character-wise equality of two character vectors.
pub fn chars_eq(a: &Vec<char>, b: &Vec<char>) -> (r: bool)
    ensures
        r == (a@ == b@),
{
    if a.len() != b.len() {
        return false;
    }
    let mut i: usize = 0;
    while i < a.len()
        invariant
            a.len() == b.len(),
            i <= a.len(),
            forall|j: int| 0 <= j < i ==> a@[j] == b@[j],
        decreases a.len() - i,
    {
        if a[i] != b[i] {
            return false;
        }
        i += 1;
    }
    assert(a@ =~= b@);
    true
}

/// Whether `lit` occurs in `s` at position `i`.
pub fn occurs_at_exec(s: &Vec<char>, i: usize, lit: &Vec<char>) -> (r: bool)
    ensures
        r == occurs_at(s@, i as int, lit@),
{
    if i > s.len() || lit.len() > s.len() - i {
        return false;
    }
    let mut j: usize = 0;
    while j < lit.len()
        invariant
            i + lit.len() <= s.len(),
            j <= lit.len(),
            forall|k: int| 0 <= k < j ==> s@[i + k] == lit@[k],
        decreases lit.len() - j,
    {
        if s[i + j] != lit[j] {
            assert(s@.subrange(i as int, i + lit.len())[j as int] != lit@[j as int]);
            return false;
        }
        j += 1;
    }
    assert(s@.subrange(i as int, i + lit.len()) =~= lit@);
    true
}

/// Whether `s` begins with `lit`.
pub fn starts_with_exec(s: &Vec<char>, lit: &Vec<char>) -> (r: bool)
    ensures
        r == starts_with(s@, lit@),
{
    occurs_at_exec(s, 0, lit)
}

/// Whether `lit` occurs in `s`.
pub fn contains_exec(s: &Vec<char>, lit: &Vec<char>) -> (r: bool)
    ensures
        r == contains(s@, lit@),
{
    if lit.len() > s.len() {
        return false;
    }
    let last = s.len() - lit.len();
    let mut i: usize = 0;
    while i <= last
        invariant
            i <= last == s.len() - lit.len(),
            forall|k: int| 0 <= k < i ==> !occurs_at(s@, k, lit@),
        decreases last - i,
    {
        if occurs_at_exec(s, i, lit) {
            return true;
        }
        if i == last {
            return false;
        }
        i += 1;
    }
    false
}

/// `s` with leading and trailing whitespace removed.
pub fn trim_chars(s: &Vec<char>) -> (r: Vec<char>)
    ensures
        r@ == trim(s@),
{
    let n = s.len();
    let mut i: usize = 0;
    assert(s@.skip(0) =~= s@);
    while i < n && is_white_space_char(s[i])
        invariant
            i <= n == s.len(),
            ws_prefix_len(s@) == i + ws_prefix_len(s@.skip(i as int)),
        decreases n - i,
    {
        assert(s@.skip(i as int).drop_first() =~= s@.skip(i + 1));
        i += 1;
    }
    assert(ws_prefix_len(s@) == i) by {
        if i < n {
            assert(s@.skip(i as int)[0] == s@[i as int]);
        }
    }
    if i == n {
        return Vec::new();
    }
    let mut j: usize = n;
    assert(s@.take(n as int) =~= s@);
    while j > i + 1 && is_white_space_char(s[j - 1])
        invariant
            i < j <= n == s.len(),
            !is_white_space(s@[i as int]),
            ws_suffix_len(s@) == (n - j) + ws_suffix_len(s@.take(j as int)),
        decreases j,
    {
        assert(s@.take(j as int).drop_last() =~= s@.take(j - 1));
        j -= 1;
    }
    assert(ws_suffix_len(s@.take(j as int)) == 0) by {
        assert(s@.take(j as int).last() == s@[j - 1]);
    }
    copy_range(s, i, j)
}

/// The first `max` words of `s` (all of them when there are fewer).
pub fn first_words(s: &Vec<char>, max: usize) -> (r: Vec<Vec<char>>)
    ensures
        r.len() == (if words(s@).len() < max { words(s@).len() } else { max as nat }),
        forall|k: int| 0 <= k < r.len() ==> #[trigger] r[k]@ == words(s@)[k],
{
    let n = s.len();
    let mut r: Vec<Vec<char>> = Vec::new();
    let mut pos: usize = 0;
    let ghost mut done: Seq<Seq<char>> = Seq::empty();
    assert(s@.skip(0) =~= s@);
    while r.len() < max
        invariant
            pos <= n == s.len(),
            r.len() == done.len(),
            r.len() <= max,
            forall|k: int| 0 <= k < r.len() ==> #[trigger] r[k]@ == done[k],
            words(s@) == done + words(s@.skip(pos as int)),
        decreases n - pos,
    {
        let mut q = pos;
        while q < n && is_white_space_char(s[q])
            invariant
                pos <= q <= n == s.len(),
                ws_prefix_len(s@.skip(pos as int)) == (q - pos) + ws_prefix_len(s@.skip(q as int)),
            decreases n - q,
        {
            assert(s@.skip(q as int).drop_first() =~= s@.skip(q + 1));
            q += 1;
        }
        assert(ws_prefix_len(s@.skip(q as int)) == 0) by {
            if q < n {
                assert(s@.skip(q as int)[0] == s@[q as int]);
            }
        }
        if q == n {
            assert(words(s@.skip(pos as int)) =~= Seq::<Seq<char>>::empty());
            assert(words(s@) =~= done);
            return r;
        }
        let mut e = q;
        while e < n && !is_white_space_char(s[e])
            invariant
                q <= e <= n == s.len(),
                word_prefix_len(s@.skip(q as int)) == (e - q) + word_prefix_len(s@.skip(e as int)),
            decreases n - e,
        {
            assert(s@.skip(e as int).drop_first() =~= s@.skip(e + 1));
            e += 1;
        }
        assert(word_prefix_len(s@.skip(e as int)) == 0) by {
            if e < n {
                assert(s@.skip(e as int)[0] == s@[e as int]);
            }
        }
        assert(word_prefix_len(s@.skip(q as int)) > 0) by {
            assert(s@.skip(q as int)[0] == s@[q as int]);
        }
        let ghost tail = s@.skip(pos as int);
        assert(tail.skip((q - pos) as int) =~= s@.skip(q as int));
        assert(s@.skip(q as int).take((e - q) as int) =~= s@.subrange(q as int, e as int));
        assert(s@.skip(q as int).skip((e - q) as int) =~= s@.skip(e as int));
        assert(words(tail) == seq![s@.subrange(q as int, e as int)] + words(s@.skip(e as int)));
        let w = copy_range(s, q, e);
        proof {
            done = done.push(w@);
        }
        r.push(w);
        assert(words(s@) =~= done + words(s@.skip(e as int)));
        pos = e;
    }
    assert(words(s@).len() >= max);
    r
}

/// The lines of `s`, as [`lines`] defines them.
pub fn split_lines(s: &Vec<char>) -> (r: Vec<Vec<char>>)
    ensures
        r.len() == lines(s@).len(),
        forall|k: int| 0 <= k < r.len() ==> #[trigger] r[k]@ == lines(s@)[k],
{
    let n = s.len();
    let mut r: Vec<Vec<char>> = Vec::new();
    let mut pos: usize = 0;
    let ghost mut done: Seq<Seq<char>> = Seq::empty();
    assert(s@.skip(0) =~= s@);
    while pos < n
        invariant
            pos <= n == s.len(),
            r.len() == done.len(),
            forall|k: int| 0 <= k < r.len() ==> #[trigger] r[k]@ == done[k],
            lines(s@) == done + lines(s@.skip(pos as int)),
        decreases n - pos,
    {
        let mut e = pos;
        while e < n && s[e] != '\n'
            invariant
                pos <= e <= n == s.len(),
                line_prefix_len(s@.skip(pos as int)) == (e - pos) + line_prefix_len(s@.skip(e as int)),
            decreases n - e,
        {
            assert(s@.skip(e as int).drop_first() =~= s@.skip(e + 1));
            e += 1;
        }
        assert(line_prefix_len(s@.skip(e as int)) == 0) by {
            if e < n {
                assert(s@.skip(e as int)[0] == s@[e as int]);
            }
        }
        let ghost tail = s@.skip(pos as int);
        assert(tail.take((e - pos) as int) =~= s@.subrange(pos as int, e as int));
        if e == n {
            assert(tail =~= s@.subrange(pos as int, e as int));
            let w = copy_range(s, pos, e);
            proof {
                done = done.push(w@);
            }
            r.push(w);
            assert(lines(s@) =~= done);
            return r;
        }
        let mut end = e;
        if e > pos && s[e - 1] == '\r' {
            end = e - 1;
        }
        assert(strip_cr(tail.take((e - pos) as int)) =~= s@.subrange(pos as int, end as int));
        assert(tail.skip((e - pos) + 1) =~= s@.skip(e + 1));
        let w = copy_range(s, pos, end);
        proof {
            done = done.push(w@);
        }
        r.push(w);
        assert(lines(s@) =~= done + lines(s@.skip(e + 1)));
        pos = e + 1;
    }
    assert(s@.skip(pos as int) =~= Seq::<char>::empty());
    assert(lines(s@) =~= done);
    r
}

/// Appends `c` to `s` with `String::push`; the contract states that the
/// string gains exactly that character at its end.
#[verifier::external_body]
fn push_char(s: &mut String, c: char)
    ensures
        final(s)@ == old(s)@.push(c),
{
    s.push(c);
}

/// A `String` holding exactly the characters of `v`, in order.
pub fn string_from_chars(v: &Vec<char>) -> (r: String)
    ensures
        r@ == v@,
{
    let mut r = String::new();
    let mut i: usize = 0;
    while i < v.len()
        invariant
            i <= v.len(),
            r@ =~= v@.take(i as int),
        decreases v.len() - i,
    {
        push_char(&mut r, v[i]);
        assert(v@.take(i + 1) =~= v@.take(i as int).push(v@[i as int]));
        i += 1;
    }
    assert(v@.take(v.len() as int) =~= v@);
    r
}

/// Appends the characters of `b` to `a`.
pub fn append_chars(a: &mut Vec<char>, b: &Vec<char>)
    ensures
        final(a)@ == old(a)@ + b@,
{
    let mut i: usize = 0;
    while i < b.len()
        invariant
            i <= b.len(),
            a@ =~= old(a)@ + b@.take(i as int),
        decreases b.len() - i,
    {
        a.push(b[i]);
        assert(old(a)@ + b@.take(i + 1) =~= (old(a)@ + b@.take(i as int)).push(b@[i as int]));
        i += 1;
    }
    assert(b@.take(b.len() as int) =~= b@);
}

} // verus!
