//! Character-level helpers: strings as character sequences, whitespace as
//! Unicode defines it, and decimal numerals.
use vstd::prelude::*;

verus! {

/// The characters of `s`, in order.
pub fn chars_of(s: &str) -> (r: Vec<char>)
    ensures
        r@ == s@,
{
    let mut out: Vec<char> = Vec::new();
    for c in it: s.chars()
        invariant
            out@ == it.seq().take(it.index()),
            it.seq() == s@,
    {
        out.push(c);
    }
    proof {
        assert(out@ =~= s@);
    }
    out
}

/// Appends one character (`String::push`).
#[verifier::external_body]
pub(crate) fn push_char(s: &mut String, c: char)
    ensures
        final(s)@ == old(s)@.push(c),
{
    s.push(c);
}

/// Appends every character of `v`.
pub fn push_chars(s: &mut String, v: &Vec<char>)
    ensures
        final(s)@ == old(s)@ + v@,
{
    let ghost start = s@;
    let mut i: usize = 0;
    while i < v.len()
        invariant
            i <= v@.len(),
            s@ == start + v@.take(i as int),
        decreases v@.len() - i,
    {
        push_char(s, v[i]);
        i = i + 1;
        assert(v@.take(i as int) =~= v@.take(i - 1).push(v@[i - 1]));
    }
    assert(v@.take(i as int) =~= v@);
}

/// Appends a string slice.
pub fn push_str(s: &mut String, t: &str)
    ensures
        final(s)@ == old(s)@ + t@,
{
    let v = chars_of(t);
    push_chars(s, &v);
}

/// The string made of the characters of `v`.
pub fn string_of(v: &Vec<char>) -> (r: String)
    ensures
        r@ == v@,
{
    let mut s = String::new();
    push_chars(&mut s, v);
    assert(s@ =~= v@);
    s
}

/// Character-wise equality of two strings.
pub fn str_eq(a: &str, b: &str) -> (r: bool)
    ensures
        r == (a@ == b@),
{
    let x = chars_of(a);
    let y = chars_of(b);
    if x.len() != y.len() {
        return false;
    }
    let mut i: usize = 0;
    while i < x.len()
        invariant
            x@ == a@,
            y@ == b@,
            x@.len() == y@.len(),
            i <= x@.len(),
            forall|j: int| 0 <= j < i ==> x@[j] == y@[j],
        decreases x@.len() - i,
    {
        if x[i] != y[i] {
            return false;
        }
        i = i + 1;
    }
    assert(x@ =~= y@);
    true
}

/// `c` is white space in Unicode's sense (the set `char::is_whitespace` accepts).
pub open spec fn is_ws(c: char) -> bool {
    ||| ('\u{9}' <= c && c <= '\u{d}')
    ||| c == ' '
    ||| c == '\u{85}'
    ||| c == '\u{a0}'
    ||| c == '\u{1680}'
    ||| ('\u{2000}' <= c && c <= '\u{200a}')
    ||| c == '\u{2028}'
    ||| c == '\u{2029}'
    ||| c == '\u{202f}'
    ||| c == '\u{205f}'
    ||| c == '\u{3000}'
}

pub fn char_is_ws(c: char) -> (r: bool)
    ensures
        r == is_ws(c),
{
    ('\u{9}' <= c && c <= '\u{d}') || c == ' ' || c == '\u{85}' || c == '\u{a0}' || c
        == '\u{1680}' || ('\u{2000}' <= c && c <= '\u{200a}') || c == '\u{2028}' || c
        == '\u{2029}' || c == '\u{202f}' || c == '\u{205f}' || c == '\u{3000}'
}

/// `s` without its leading white space.
pub open spec fn trim_start(s: Seq<char>) -> Seq<char>
    decreases s.len(),
{
    if s.len() > 0 && is_ws(s[0]) {
        trim_start(s.drop_first())
    } else {
        s
    }
}

/// `s` without its trailing white space.
pub open spec fn trim_end(s: Seq<char>) -> Seq<char>
    decreases s.len(),
{
    if s.len() > 0 && is_ws(s.last()) {
        trim_end(s.drop_last())
    } else {
        s
    }
}

/// `s` without leading and trailing white space (`str::trim`).
pub open spec fn trim(s: Seq<char>) -> Seq<char> {
    trim_end(trim_start(s))
}

pub proof fn lemma_trim_start_at(s: Seq<char>, i: int)
    requires
        0 <= i <= s.len(),
        forall|j: int| 0 <= j < i ==> is_ws(s[j]),
        i == s.len() || !is_ws(s[i]),
    ensures
        trim_start(s) == s.subrange(i, s.len() as int),
    decreases i,
{
    if i == 0 {
        assert(s.subrange(0, s.len() as int) =~= s);
    } else {
        lemma_trim_start_at(s.drop_first(), i - 1);
        assert(s.drop_first().subrange(i - 1, s.len() - 1) =~= s.subrange(i, s.len() as int));
    }
}

pub proof fn lemma_trim_end_at(s: Seq<char>, k: int)
    requires
        0 <= k <= s.len(),
        forall|j: int| k <= j < s.len() ==> is_ws(s[j]),
        k == 0 || !is_ws(s[k - 1]),
    ensures
        trim_end(s) == s.subrange(0, k),
    decreases s.len() - k,
{
    if k == s.len() {
        assert(s.subrange(0, k) =~= s);
    } else {
        lemma_trim_end_at(s.drop_last(), k);
        assert(s.drop_last().subrange(0, k) =~= s.subrange(0, k));
    }
}

/// Trims a character sequence.
pub fn trim_chars(v: &Vec<char>) -> (r: Vec<char>)
    ensures
        r@ == trim(v@),
{
    let mut i: usize = 0;
    while i < v.len() && char_is_ws(v[i])
        invariant
            i <= v@.len(),
            forall|j: int| 0 <= j < i ==> is_ws(v@[j]),
        decreases v@.len() - i,
    {
        i = i + 1;
    }
    proof {
        lemma_trim_start_at(v@, i as int);
    }
    let ghost t = v@.subrange(i as int, v@.len() as int);
    let mut k: usize = v.len();
    while k > i && char_is_ws(v[k - 1])
        invariant
            i <= k <= v@.len(),
            t == v@.subrange(i as int, v@.len() as int),
            forall|j: int| k <= j < v@.len() ==> is_ws(v@[j]),
        decreases k,
    {
        k = k - 1;
    }
    proof {
        lemma_trim_end_at(t, k - i);
        assert(t.subrange(0, k - i) =~= v@.subrange(i as int, k as int));
    }
    let mut out: Vec<char> = Vec::new();
    let mut j: usize = i;
    while j < k
        invariant
            i <= j <= k <= v@.len(),
            out@ == v@.subrange(i as int, j as int),
        decreases k - j,
    {
        out.push(v[j]);
        j = j + 1;
        assert(out@ =~= v@.subrange(i as int, j as int));
    }
    out
}

/// One step of joining the white-space separated words of a text with single
/// spaces: the text so far, and whether a separator is owed before the next word.
pub open spec fn collapse_step(st: (Seq<char>, bool), c: char) -> (Seq<char>, bool) {
    if is_ws(c) {
        (st.0, st.0.len() > 0)
    } else if st.1 {
        (st.0.push(' ').push(c), false)
    } else {
        (st.0.push(c), false)
    }
}

pub open spec fn collapse_state(s: Seq<char>) -> (Seq<char>, bool) {
    s.fold_left((Seq::<char>::empty(), false), |st: (Seq<char>, bool), c: char| collapse_step(st, c))
}

/// The words of `s` (maximal runs of non-white-space) joined by single spaces
/// (`split_whitespace` then `join(" ")`).
pub open spec fn collapse_ws(s: Seq<char>) -> Seq<char> {
    collapse_state(s).0
}

/// Joins the white-space separated words of `v` with single spaces.
pub fn collapse_chars(v: &Vec<char>) -> (r: Vec<char>)
    ensures
        r@ == collapse_ws(v@),
{
    let mut out: Vec<char> = Vec::new();
    let mut pending = false;
    let mut i: usize = 0;
    while i < v.len()
        invariant
            i <= v@.len(),
            (out@, pending) == collapse_state(v@.take(i as int)),
        decreases v@.len() - i,
    {
        let c = v[i];
        proof {
            assert(v@.take(i + 1).drop_last() =~= v@.take(i as int));
        }
        if char_is_ws(c) {
            pending = out.len() > 0;
        } else {
            if pending {
                out.push(' ');
            }
            out.push(c);
            pending = false;
        }
        i = i + 1;
    }
    assert(v@.take(i as int) =~= v@);
    out
}

/// Starts-with on character sequences.
pub open spec fn has_prefix(s: Seq<char>, p: Seq<char>) -> bool {
    p.len() <= s.len() && s.take(p.len() as int) == p
}

pub fn starts_with(s: &str, p: &str) -> (r: bool)
    ensures
        r == has_prefix(s@, p@),
{
    let x = chars_of(s);
    let y = chars_of(p);
    if y.len() > x.len() {
        return false;
    }
    let mut i: usize = 0;
    while i < y.len()
        invariant
            x@ == s@,
            y@ == p@,
            y@.len() <= x@.len(),
            i <= y@.len(),
            forall|j: int| 0 <= j < i ==> x@[j] == y@[j],
        decreases y@.len() - i,
    {
        if x[i] != y[i] {
            assert(x@.take(y@.len() as int)[i as int] != y@[i as int]);
            return false;
        }
        i = i + 1;
    }
    assert(x@.take(y@.len() as int) =~= y@);
    true
}

/// The numeral of a digit.
pub open spec fn digit_char(d: int) -> char {
    if d == 0 {
        '0'
    } else if d == 1 {
        '1'
    } else if d == 2 {
        '2'
    } else if d == 3 {
        '3'
    } else if d == 4 {
        '4'
    } else if d == 5 {
        '5'
    } else if d == 6 {
        '6'
    } else if d == 7 {
        '7'
    } else if d == 8 {
        '8'
    } else {
        '9'
    }
}

/// The decimal numeral of `n`, without leading zeros.
pub open spec fn decimal(n: nat) -> Seq<char>
    decreases n,
{
    if n < 10 {
        seq![digit_char(n as int)]
    } else {
        decimal(n / 10).push(digit_char((n % 10) as int))
    }
}

/// `s` padded on the left with zeros to at least `w` characters.
pub open spec fn zero_pad(s: Seq<char>, w: nat) -> Seq<char> {
    if s.len() < w {
        Seq::new((w - s.len()) as nat, |_i: int| '0') + s
    } else {
        s
    }
}

fn digit_of(d: u128) -> (c: char)
    requires
        d < 10,
    ensures
        c == digit_char(d as int),
{
    if d == 0 {
        '0'
    } else if d == 1 {
        '1'
    } else if d == 2 {
        '2'
    } else if d == 3 {
        '3'
    } else if d == 4 {
        '4'
    } else if d == 5 {
        '5'
    } else if d == 6 {
        '6'
    } else if d == 7 {
        '7'
    } else if d == 8 {
        '8'
    } else {
        '9'
    }
}

/// Appends the decimal numeral of `n`.
pub fn push_decimal(s: &mut String, n: u128)
    ensures
        final(s)@ == old(s)@ + decimal(n as nat),
    decreases n,
{
    if n >= 10 {
        push_decimal(s, n / 10);
    }
    push_char(s, digit_of(n % 10));
    assert(s@ =~= old(s)@ + decimal(n as nat));
}

/// Appends the decimal numeral of `n`, zero-padded to `w` characters.
pub fn push_padded(s: &mut String, n: u64, w: usize)
    ensures
        final(s)@ == old(s)@ + zero_pad(decimal(n as nat), w as nat),
{
    let mut digits = String::new();
    push_decimal(&mut digits, n as u128);
    let v = chars_of(digits.as_str());
    let ghost start = s@;
    let mut k: usize = v.len();
    while k < w
        invariant
            v.len() <= k <= w || (k == v.len() && v.len() >= w),
            v@ == decimal(n as nat),
            s@ == start + Seq::new((k - v.len()) as nat, |_i: int| '0'),
        decreases w - k,
    {
        push_char(s, '0');
        k = k + 1;
        assert(s@ =~= start + Seq::new((k - v.len()) as nat, |_i: int| '0'));
    }
    push_chars(s, &v);
    assert(s@ =~= start + zero_pad(decimal(n as nat), w as nat));
}

/// Equality of character sequences.
pub fn chars_eq(x: &Vec<char>, y: &Vec<char>) -> (r: bool)
    ensures
        r == (x@ == y@),
{
    if x.len() != y.len() {
        return false;
    }
    let mut i: usize = 0;
    while i < x.len()
        invariant
            x@.len() == y@.len(),
            i <= x@.len(),
            forall|j: int| 0 <= j < i ==> x@[j] == y@[j],
        decreases x@.len() - i,
    {
        if x[i] != y[i] {
            return false;
        }
        i = i + 1;
    }
    assert(x@ =~= y@);
    true
}

/// White space in `t` is single spaces between words: no other white-space
/// character, none at either end, never two in a row.
pub open spec fn single_spaced(t: Seq<char>) -> bool {
    &&& forall|i: int| 0 <= i < t.len() && is_ws(#[trigger] t[i]) ==> t[i] == ' '
    &&& t.len() > 0 ==> !is_ws(t[0]) && !is_ws(t.last())
    &&& forall|i: int| 0 <= i < t.len() - 1 && #[trigger] t[i] == ' ' ==> t[i + 1] != ' '
}

proof fn lemma_collapse_state_spaced(s: Seq<char>)
    ensures
        single_spaced(collapse_state(s).0),
        collapse_state(s).1 ==> collapse_state(s).0.len() > 0,
    decreases s.len(),
{
    if s.len() > 0 {
        lemma_collapse_state_spaced(s.drop_last());
        let st = collapse_state(s.drop_last());
        let c = s.last();
        assert(collapse_state(s) == collapse_step(st, c));
        if !is_ws(c) {
            let t = collapse_step(st, c).0;
            if st.1 {
                assert(t == st.0.push(' ').push(c));
                assert(!is_ws(st.0.last()));
                assert forall|i: int| 0 <= i < t.len() - 1 && #[trigger] t[i] == ' ' implies t[i + 1] != ' ' by {
                    if i < st.0.len() - 1 {
                        assert(t[i] == st.0[i] && t[i + 1] == st.0[i + 1]);
                    }
                }
                assert forall|i: int| 0 <= i < t.len() && is_ws(#[trigger] t[i]) implies t[i] == ' ' by {
                    if i < st.0.len() {
                        assert(t[i] == st.0[i]);
                    }
                }
            } else {
                assert(t == st.0.push(c));
                assert forall|i: int| 0 <= i < t.len() - 1 && #[trigger] t[i] == ' ' implies t[i + 1] != ' ' by {
                    if i < st.0.len() - 1 {
                        assert(t[i] == st.0[i] && t[i + 1] == st.0[i + 1]);
                    }
                }
                assert forall|i: int| 0 <= i < t.len() && is_ws(#[trigger] t[i]) implies t[i] == ' ' by {
                    if i < st.0.len() {
                        assert(t[i] == st.0[i]);
                    }
                }
            }
        }
    }
}

/// Joining the words of any text with single spaces leaves it single-spaced:
/// one line, no white space at the ends, never two spaces in a row.
pub proof fn lemma_collapse_single_spaced(s: Seq<char>)
    ensures
        single_spaced(collapse_ws(s)),
{
    lemma_collapse_state_spaced(s);
}


// ---------------------------------------------------------------------------
// Occurrences of a piece of text.
// ---------------------------------------------------------------------------

/// `m` occurs in `t` at position `i`.
pub open spec fn occurs_at(t: Seq<char>, m: Seq<char>, i: int) -> bool {
    0 <= i && i + m.len() <= t.len() && t.subrange(i, i + m.len()) == m
}

/// `m` occurs somewhere in `t`.
pub open spec fn occurs(t: Seq<char>, m: Seq<char>) -> bool {
    exists|i: int| occurs_at(t, m, i)
}

/// `u` is a contiguous piece of `t`.
pub open spec fn is_piece(u: Seq<char>, t: Seq<char>) -> bool {
    exists|a: int, b: int| 0 <= a <= b <= t.len() && u == t.subrange(a, b)
}

/// What does not occur in a text does not occur in any piece of it.
pub proof fn lemma_piece_free(u: Seq<char>, t: Seq<char>, m: Seq<char>)
    requires
        is_piece(u, t),
        !occurs(t, m),
    ensures
        !occurs(u, m),
{
    let (a, b) = choose|a: int, b: int| 0 <= a <= b <= t.len() && u == t.subrange(a, b);
    if occurs(u, m) {
        let i = choose|i: int| occurs_at(u, m, i);
        assert(t.subrange(a + i, a + i + m.len()) =~= u.subrange(i, i + m.len()));
        assert(occurs_at(t, m, a + i));
    }
}

pub proof fn lemma_piece_trans(u: Seq<char>, v: Seq<char>, t: Seq<char>)
    requires
        is_piece(u, v),
        is_piece(v, t),
    ensures
        is_piece(u, t),
{
    let (a, b) = choose|a: int, b: int| 0 <= a <= b <= v.len() && u == v.subrange(a, b);
    let (c, d) = choose|c: int, d: int| 0 <= c <= d <= t.len() && v == t.subrange(c, d);
    assert(u =~= t.subrange(c + a, c + b));
}

pub proof fn lemma_piece_skip(t: Seq<char>, k: int)
    requires
        0 <= k <= t.len(),
    ensures
        is_piece(t.skip(k), t),
        is_piece(t.take(k), t),
        is_piece(t, t),
{
    assert(t.skip(k) =~= t.subrange(k, t.len() as int));
    assert(t.take(k) =~= t.subrange(0, k));
    assert(t =~= t.subrange(0, t.len() as int));
}

pub proof fn lemma_trim_piece(s: Seq<char>)
    ensures
        is_piece(trim_start(s), s),
        is_piece(trim_end(s), s),
        is_piece(trim(s), s),
    decreases s.len(),
{
    lemma_piece_skip(s, 0);
    if s.len() > 0 {
        lemma_trim_piece(s.drop_first());
        lemma_trim_piece(s.drop_last());
        lemma_piece_skip(s, 1);
        lemma_piece_skip(s, s.len() - 1);
        assert(s.drop_first() =~= s.skip(1));
        assert(s.drop_last() =~= s.take(s.len() - 1));
        if is_ws(s[0]) {
            lemma_piece_trans(trim_start(s.drop_first()), s.drop_first(), s);
        }
        if is_ws(s.last()) {
            lemma_piece_trans(trim_end(s.drop_last()), s.drop_last(), s);
        }
    }
    lemma_trim_end_piece_of(trim_start(s));
    lemma_piece_trans(trim(s), trim_start(s), s);
}

proof fn lemma_trim_end_piece_of(s: Seq<char>)
    ensures
        is_piece(trim_end(s), s),
    decreases s.len(),
{
    lemma_piece_skip(s, 0);
    if s.len() > 0 && is_ws(s.last()) {
        lemma_trim_end_piece_of(s.drop_last());
        lemma_piece_skip(s, s.len() - 1);
        assert(s.drop_last() =~= s.take(s.len() - 1));
        lemma_piece_trans(trim_end(s.drop_last()), s.drop_last(), s);
    }
}

/// The white-space-free run at the end of `x`.
pub open spec fn end_run(x: Seq<char>) -> Seq<char>
    decreases x.len(),
{
    if x.len() == 0 || is_ws(x.last()) { Seq::empty() } else { end_run(x.drop_last()).push(x.last()) }
}

proof fn lemma_end_run_suffix(x: Seq<char>)
    ensures
        end_run(x).len() <= x.len(),
        x.subrange(x.len() - end_run(x).len(), x.len() as int) == end_run(x),
    decreases x.len(),
{
    if x.len() > 0 && !is_ws(x.last()) {
        lemma_end_run_suffix(x.drop_last());
        assert(x.subrange(x.len() - end_run(x).len(), x.len() as int) =~= end_run(x));
    } else {
        assert(x.subrange(x.len() as int, x.len() as int) =~= end_run(x));
    }
}

proof fn lemma_end_run_longest(x: Seq<char>, i: int)
    requires
        0 <= i <= x.len(),
        forall|j: int| i <= j < x.len() ==> !is_ws(#[trigger] x[j]),
    ensures
        x.len() - i <= end_run(x).len(),
    decreases x.len(),
{
    if i < x.len() {
        assert(!is_ws(x[x.len() - 1]));
        let y = x.drop_last();
        assert forall|j: int| i <= j < y.len() implies !is_ws(#[trigger] y[j]) by {
            assert(y[j] == x[j]);
        }
        lemma_end_run_longest(y, i);
    }
}

proof fn lemma_occurs_extend(s: Seq<char>, m: Seq<char>, i: int)
    requires
        s.len() > 0,
        occurs_at(s.drop_last(), m, i),
    ensures
        occurs_at(s, m, i),
{
    assert(s.subrange(i, i + m.len()) =~= s.drop_last().subrange(i, i + m.len()));
}

/// Joining words with single spaces brings no new white-space-free piece of
/// text into being: each such piece of the result occurs in the input.
pub proof fn lemma_collapse_no_new(s: Seq<char>, m: Seq<char>)
    requires
        m.len() > 0,
        forall|j: int| 0 <= j < m.len() ==> !is_ws(#[trigger] m[j]),
    ensures
        occurs(collapse_ws(s), m) ==> occurs(s, m),
{
    lemma_collapse_inv(s, m);
}

proof fn lemma_collapse_inv(s: Seq<char>, m: Seq<char>)
    requires
        m.len() > 0,
        forall|j: int| 0 <= j < m.len() ==> !is_ws(#[trigger] m[j]),
    ensures
        !collapse_state(s).1 ==> end_run(collapse_state(s).0) == end_run(s),
        collapse_state(s).1 ==> end_run(s).len() == 0,
        occurs(collapse_state(s).0, m) ==> occurs(s, m),
    decreases s.len(),
{
    if s.len() > 0 {
        let s0 = s.drop_last();
        let c = s.last();
        lemma_collapse_inv(s0, m);
        let st = collapse_state(s0);
        let o0 = st.0;
        assert(collapse_state(s) == collapse_step(st, c));
        let o = collapse_state(s).0;
        if occurs(o, m) {
            let i = choose|i: int| occurs_at(o, m, i);
            if i + m.len() <= o0.len() {
                assert(o0.subrange(i, i + m.len()) =~= o.subrange(i, i + m.len()));
                assert(occurs_at(o0, m, i));
                let k = choose|k: int| occurs_at(s0, m, k);
                lemma_occurs_extend(s, m, k);
            } else if is_ws(c) {
                assert(o == o0);
            } else if st.1 {
                assert(o == o0.push(' ').push(c));
                if i <= o0.len() {
                    assert(m[o0.len() - i] == o.subrange(i, i + m.len())[o0.len() - i]);
                    assert(o[o0.len() as int] == ' ');
                } else {
                    assert(m.len() == 1);
                    assert(m =~= seq![c]);
                    assert(s.subrange(s.len() - 1, s.len() as int) =~= seq![c]);
                    assert(occurs_at(s, m, s.len() - 1));
                }
            } else {
                assert(o == o0.push(c));
                assert(o0.push(c).drop_last() =~= o0);
                assert(end_run(o) == end_run(s));
                assert forall|j: int| i <= j < o.len() implies !is_ws(#[trigger] o[j]) by {
                    assert(o[j] == m[j - i]);
                }
                lemma_end_run_longest(o, i);
                lemma_end_run_suffix(o);
                lemma_end_run_suffix(s);
                let r = end_run(s);
                assert(o.subrange(i, o.len() as int) =~= m);
                assert(m =~= r.subrange(r.len() - m.len(), r.len() as int));
                assert(s.subrange(s.len() - m.len(), s.len() as int) =~= m);
                assert(occurs_at(s, m, s.len() - m.len()));
            }
        }
        if !is_ws(c) && st.1 {
            assert(end_run(o0.push(' ')) == Seq::<char>::empty());
            assert(o0.push(' ').push(c).drop_last() =~= o0.push(' '));
        }
        if !is_ws(c) && !st.1 {
            assert(o0.push(c).drop_last() =~= o0);
        }
    }
}

} // verus!
