//! Character-level text handling shared by the parsers and renderers:
//! conversions between `str`/`String` and `Vec<char>`, Unicode whitespace,
//! trimming and the splitting of a text into lines as `str::lines` does it.
use vstd::prelude::*;

verus! {

broadcast use vstd::string::group_string_axioms;

/// The Unicode `White_Space` property, the set that `char::is_whitespace` tests.
pub open spec fn is_ws(c: char) -> bool {
    let u: u32 = c as u32;
    ||| 9 <= u <= 13
    ||| u == 32
    ||| u == 0x85
    ||| u == 0xA0
    ||| u == 0x1680
    ||| 0x2000 <= u <= 0x200A
    ||| u == 0x2028
    ||| u == 0x2029
    ||| u == 0x202F
    ||| u == 0x205F
    ||| u == 0x3000
}

/// Whether `c` is Unicode whitespace.
pub fn is_whitespace(c: char) -> (r: bool)
    ensures
        r == is_ws(c),
{
    let u: u32 = c as u32;
    (9 <= u && u <= 13) || u == 32 || u == 0x85 || u == 0xA0 || u == 0x1680 || (0x2000 <= u && u
        <= 0x200A) || u == 0x2028 || u == 0x2029 || u == 0x202F || u == 0x205F || u == 0x3000
}

/// Appends one character to a `String` (`String::push`).
#[verifier::external_body]
fn string_push(s: &mut String, c: char)
    ensures
        final(s)@ == old(s)@.push(c),
{
    s.push(c);
}

/// The characters of a string slice, in order.
pub fn chars_of(s: &str) -> (r: Vec<char>)
    ensures
        r@ == s@,
{
    let mut r: Vec<char> = Vec::new();
    for c in it: s.chars()
        invariant
            r@ == it.seq().take(it.index() as int),
    {
        r.push(c);
    }
    r
}

/// Appends the characters of `s` to `out`.
pub fn push_str(out: &mut Vec<char>, s: &str)
    ensures
        final(out)@ == old(out)@ + s@,
{
    let ghost start = out@;
    for c in it: s.chars()
        invariant
            out@ == start + it.seq().take(it.index() as int),
    {
        out.push(c);
    }
    assert(out@ == start + s@);
}

/// Appends `s[lo..hi]` to `out`.
pub fn push_range(out: &mut Vec<char>, s: &Vec<char>, lo: usize, hi: usize)
    requires
        lo <= hi <= s.len(),
    ensures
        final(out)@ == old(out)@ + s@.subrange(lo as int, hi as int),
{
    let ghost start = out@;
    let mut i: usize = lo;
    while i < hi
        invariant
            lo <= i <= hi <= s.len(),
            out@ == start + s@.subrange(lo as int, i as int),
        decreases hi - i,
    {
        out.push(s[i]);
        i = i + 1;
        assert(s@.subrange(lo as int, i as int) == s@.subrange(lo as int, i - 1).push(s@[i - 1]));
    }
}

/// The characters `s[lo..hi]` as a new vector.
pub fn copy_range(s: &Vec<char>, lo: usize, hi: usize) -> (r: Vec<char>)
    requires
        lo <= hi <= s.len(),
    ensures
        r@ == s@.subrange(lo as int, hi as int),
{
    let mut r: Vec<char> = Vec::new();
    push_range(&mut r, s, lo, hi);
    r
}

/// A `String` holding the characters of `v`.
pub fn string_of(v: &Vec<char>) -> (r: String)
    ensures
        r@ == v@,
{
    let mut r = String::new();
    let mut i: usize = 0;
    while i < v.len()
        invariant
            i <= v.len(),
            r@ == v@.subrange(0, i as int),
        decreases v.len() - i,
    {
        string_push(&mut r, v[i]);
        i = i + 1;
        assert(v@.subrange(0, i as int) == v@.subrange(0, i - 1).push(v@[i - 1]));
    }
    assert(v@.subrange(0, v@.len() as int) == v@);
    r
}

/// Whether two character sequences are equal.
pub fn same_chars(a: &Vec<char>, b: &Vec<char>) -> (r: bool)
    ensures
        r == (a@ == b@),
{
    if a.len() != b.len() {
        return false;
    }
    let mut i: usize = 0;
    while i < a.len()
        invariant
            a.len() == b.len(),
            i <= a.len(),
            forall|j: int| 0 <= j < i ==> a@[j] == b@[j],
        decreases a.len() - i,
    {
        if a[i] != b[i] {
            return false;
        }
        i = i + 1;
    }
    assert(a@ =~= b@);
    true
}

/// Whether `s[lo..hi]` equals `w`.
pub fn range_equals(s: &Vec<char>, lo: usize, hi: usize, w: &Vec<char>) -> (r: bool)
    requires
        lo <= hi <= s.len(),
    ensures
        r == (s@.subrange(lo as int, hi as int) == w@),
{
    if hi - lo != w.len() {
        return false;
    }
    let mut i: usize = 0;
    while i < w.len()
        invariant
            hi - lo == w.len(),
            lo <= hi <= s.len(),
            i <= w.len(),
            forall|j: int| 0 <= j < i ==> s@[lo + j] == w@[j],
        decreases w.len() - i,
    {
        if s[lo + i] != w[i] {
            return false;
        }
        i = i + 1;
    }
    assert(s@.subrange(lo as int, hi as int) =~= w@);
    true
}

/// Whether `s[lo..hi]` begins with `w`.
pub fn range_starts_with(s: &Vec<char>, lo: usize, hi: usize, w: &Vec<char>) -> (r: bool)
    requires
        lo <= hi <= s.len(),
    ensures
        r == (w@.len() <= hi - lo && s@.subrange(lo as int, lo + w@.len()) == w@),
{
    if hi - lo < w.len() {
        return false;
    }
    range_equals(s, lo, lo + w.len(), w)
}

/// `s` without its leading whitespace (`str::trim_start`).
pub open spec fn trim_start(s: Seq<char>) -> Seq<char>
    decreases s.len(),
{
    if s.len() > 0 && is_ws(s[0]) {
        trim_start(s.drop_first())
    } else {
        s
    }
}

/// `s` without its trailing whitespace (`str::trim_end`).
pub open spec fn trim_end(s: Seq<char>) -> Seq<char>
    decreases s.len(),
{
    if s.len() > 0 && is_ws(s.last()) {
        trim_end(s.drop_last())
    } else {
        s
    }
}

/// `s` without leading and trailing whitespace (`str::trim`).
pub open spec fn trim(s: Seq<char>) -> Seq<char> {
    trim_end(trim_start(s))
}

/// `trim_start(s)` is `s` less its leading run of whitespace: what is removed is all
/// whitespace, and what is left does not start with whitespace.
pub proof fn lemma_trim_start_shape(s: Seq<char>)
    ensures
        trim_start(s).len() <= s.len(),
        trim_start(s) == s.skip(s.len() - trim_start(s).len()),
        forall|i: int| 0 <= i < s.len() - trim_start(s).len() ==> is_ws(#[trigger] s[i]),
        !(trim_start(s).len() > 0 && is_ws(trim_start(s)[0])),
    decreases s.len(),
{
    if s.len() > 0 && is_ws(s[0]) {
        lemma_trim_start_shape(s.drop_first());
        let k = s.len() - trim_start(s).len();
        assert(s.drop_first().skip(k - 1) =~= s.skip(k));
        assert forall|i: int| 0 <= i < k implies is_ws(#[trigger] s[i]) by {
            if i > 0 {
                assert(s[i] == s.drop_first()[i - 1]);
            }
        }
    } else {
        assert(s.skip(0) =~= s);
    }
}

/// `trim_end(s)` is `s` less its trailing run of whitespace: what is removed is all
/// whitespace, and what is left does not end with whitespace.
pub proof fn lemma_trim_end_shape(s: Seq<char>)
    ensures
        trim_end(s).len() <= s.len(),
        trim_end(s) == s.take(trim_end(s).len() as int),
        forall|i: int| trim_end(s).len() <= i < s.len() ==> is_ws(#[trigger] s[i]),
        !(trim_end(s).len() > 0 && is_ws(trim_end(s).last())),
    decreases s.len(),
{
    if s.len() > 0 && is_ws(s.last()) {
        lemma_trim_end_shape(s.drop_last());
        let n = trim_end(s).len();
        assert(s.drop_last().take(n as int) =~= s.take(n as int));
        assert forall|i: int| n <= i < s.len() implies is_ws(#[trigger] s[i]) by {
            if i < s.len() - 1 {
                assert(s[i] == s.drop_last()[i]);
            }
        }
    } else {
        assert(s.take(s.len() as int) =~= s);
    }
}

/// `s` without any of its leading copies of `c` (`str::trim_start_matches(c)`).
pub open spec fn strip_start(s: Seq<char>, c: char) -> Seq<char>
    decreases s.len(),
{
    if s.len() > 0 && s[0] == c {
        strip_start(s.drop_first(), c)
    } else {
        s
    }
}

/// `s` without any of its trailing copies of `c` (`str::trim_end_matches(c)`).
pub open spec fn strip_end(s: Seq<char>, c: char) -> Seq<char>
    decreases s.len(),
{
    if s.len() > 0 && s.last() == c {
        strip_end(s.drop_last(), c)
    } else {
        s
    }
}

/// `strip_end(s, c)` is `s` less its trailing run of `c`s: `s` is it followed by nothing
/// but `c`s, and it does not itself end in `c`.
pub proof fn lemma_strip_end_shape(s: Seq<char>, c: char)
    ensures
        strip_end(s, c).len() <= s.len(),
        s == strip_end(s, c) + Seq::new((s.len() - strip_end(s, c).len()) as nat, |_i: int| c),
        !(strip_end(s, c).len() > 0 && strip_end(s, c).last() == c),
    decreases s.len(),
{
    if s.len() > 0 && s.last() == c {
        lemma_strip_end_shape(s.drop_last(), c);
        let t = strip_end(s, c);
        let k = (s.drop_last().len() - t.len()) as nat;
        assert(s.drop_last() == t + Seq::new(k, |_i: int| c));
        assert(s == s.drop_last().push(c));
        assert(Seq::new(k, |_i: int| c).push(c) =~= Seq::new(k + 1, |_i: int| c));
        assert((t + Seq::new(k, |_i: int| c)).push(c) =~= t + Seq::new(k, |_i: int| c).push(c));
    } else {
        assert(s =~= s + Seq::new(0, |_i: int| c));
    }
}

/// The bounds of `trim(s[lo..hi])` within `s`.
pub fn trim_range(s: &Vec<char>, lo: usize, hi: usize) -> (r: (usize, usize))
    requires
        lo <= hi <= s.len(),
    ensures
        lo <= r.0 <= r.1 <= hi,
        s@.subrange(r.0 as int, r.1 as int) == trim(s@.subrange(lo as int, hi as int)),
{
    let mut a: usize = lo;
    while a < hi && is_whitespace(s[a])
        invariant
            lo <= a <= hi <= s.len(),
            trim_start(s@.subrange(lo as int, hi as int)) == trim_start(
                s@.subrange(a as int, hi as int),
            ),
        decreases hi - a,
    {
        assert(s@.subrange(a as int, hi as int).drop_first() == s@.subrange(a + 1, hi as int));
        a = a + 1;
    }
    assert(trim_start(s@.subrange(a as int, hi as int)) == s@.subrange(a as int, hi as int));
    let mut b: usize = hi;
    while b > a && is_whitespace(s[b - 1])
        invariant
            lo <= a <= b <= hi <= s.len(),
            trim_end(s@.subrange(a as int, hi as int)) == trim_end(s@.subrange(a as int, b as int)),
        decreases b - a,
    {
        assert(s@.subrange(a as int, b as int).drop_last() == s@.subrange(a as int, b - 1));
        b = b - 1;
    }
    (a, b)
}

/// The bounds of `strip_end(strip_start(s[lo..hi], c), c)` within `s`.
pub fn strip_range(s: &Vec<char>, lo: usize, hi: usize, c: char) -> (r: (usize, usize))
    requires
        lo <= hi <= s.len(),
    ensures
        lo <= r.0 <= r.1 <= hi,
        s@.subrange(r.0 as int, r.1 as int) == strip_end(
            strip_start(s@.subrange(lo as int, hi as int), c),
            c,
        ),
{
    let mut a: usize = lo;
    while a < hi && s[a] == c
        invariant
            lo <= a <= hi <= s.len(),
            strip_start(s@.subrange(lo as int, hi as int), c) == strip_start(
                s@.subrange(a as int, hi as int),
                c,
            ),
        decreases hi - a,
    {
        assert(s@.subrange(a as int, hi as int).drop_first() == s@.subrange(a + 1, hi as int));
        a = a + 1;
    }
    assert(strip_start(s@.subrange(a as int, hi as int), c) == s@.subrange(a as int, hi as int));
    let mut b: usize = hi;
    while b > a && s[b - 1] == c
        invariant
            lo <= a <= b <= hi <= s.len(),
            strip_end(s@.subrange(a as int, hi as int), c) == strip_end(
                s@.subrange(a as int, b as int),
                c,
            ),
        decreases b - a,
    {
        assert(s@.subrange(a as int, b as int).drop_last() == s@.subrange(a as int, b - 1));
        b = b - 1;
    }
    (a, b)
}

/// The first index `j >= i` with `s[j] == c`, or `s.len()` where there is none.
pub open spec fn find_from(s: Seq<char>, c: char, i: nat) -> nat
    decreases s.len() - i,
{
    if i >= s.len() {
        s.len()
    } else if s[i as int] == c {
        i
    } else {
        find_from(s, c, i + 1)
    }
}

/// `find_from` stays within `[i, s.len()]`, and nothing before it matches.
pub proof fn lemma_find_from(s: Seq<char>, c: char, i: nat)
    requires
        i <= s.len(),
    ensures
        i <= find_from(s, c, i) <= s.len(),
        find_from(s, c, i) < s.len() ==> s[find_from(s, c, i) as int] == c,
        forall|j: int| i <= j < find_from(s, c, i) ==> s[j] != c,
    decreases s.len() - i,
{
    if i < s.len() && s[i as int] != c {
        lemma_find_from(s, c, i + 1);
    }
}

/// Where the character `c` first occurs in `s[i..]`, and `None` where it does not.
pub open spec fn find_char(s: Seq<char>, c: char, i: nat) -> Option<nat> {
    if find_from(s, c, i) < s.len() {
        Some(find_from(s, c, i))
    } else {
        None
    }
}

/// The index of the first `c` in `s[from..hi]`, or `hi` where there is none; counted from
/// `lo`, it is where `find_from` puts it in `s[lo..hi]`.
pub fn find_in_range(s: &Vec<char>, c: char, lo: usize, from: usize, hi: usize) -> (r: usize)
    requires
        lo <= from <= hi <= s.len(),
    ensures
        r - lo == find_from(s@.subrange(lo as int, hi as int), c, (from - lo) as nat),
        from <= r <= hi,
{
    let ghost t = s@.subrange(lo as int, hi as int);
    proof {
        lemma_find_from(t, c, (from - lo) as nat);
    }
    let mut i: usize = from;
    while i < hi && s[i] != c
        invariant
            lo <= from <= i <= hi <= s.len(),
            t == s@.subrange(lo as int, hi as int),
            find_from(t, c, (from - lo) as nat) == find_from(t, c, (i - lo) as nat),
        decreases hi - i,
    {
        assert(t[i - lo] == s@[i as int]);
        i = i + 1;
    }
    if i < hi {
        assert(t[i - lo] == s@[i as int]);
    }
    i
}

/// A line without the `\r` that preceded its `\n`.
pub open spec fn strip_cr(l: Seq<char>) -> Seq<char> {
    if l.len() > 0 && l.last() == '\r' {
        l.drop_last()
    } else {
        l
    }
}

/// The lines of `s[i..]`, as `str::lines` yields them: split at each `\n`, with the `\n`
/// and a `\r` just before it removed, and no empty line after a final `\n`.
pub open spec fn lines_from(s: Seq<char>, i: nat) -> Seq<Seq<char>>
    decreases s.len() + 1 - i
    via lines_from_decreases
{
    if i >= s.len() {
        seq![]
    } else {
        let e = find_from(s, '\n', i);
        let raw = s.subrange(i as int, e as int);
        let line = if e < s.len() {
            strip_cr(raw)
        } else {
            raw
        };
        seq![line] + lines_from(s, e + 1)
    }
}

#[via_fn]
proof fn lines_from_decreases(s: Seq<char>, i: nat) {
    if i < s.len() {
        lemma_find_from(s, '\n', i);
    }
}

/// The lines of `s` (`str::lines`).
pub open spec fn lines(s: Seq<char>) -> Seq<Seq<char>> {
    lines_from(s, 0)
}

/// Searching a text with a prefix in front, from within the text, finds what searching
/// the text alone finds, shifted by the prefix's length.
pub proof fn lemma_find_from_shift(p: Seq<char>, y: Seq<char>, c: char, k: nat)
    ensures
        find_from(p + y, c, p.len() + k) == p.len() + find_from(y, c, k),
    decreases y.len() - k,
{
    let s = p + y;
    if k < y.len() {
        assert(s[(p.len() + k) as int] == y[k as int]);
        if y[k as int] != c {
            lemma_find_from_shift(p, y, c, k + 1);
            assert(p.len() + k + 1 == p.len() + (k + 1));
        }
    }
}

/// A search from `i` passes over a stretch `[i, j)` that holds no `c`.
pub proof fn lemma_find_from_skip(s: Seq<char>, c: char, i: nat, j: nat)
    requires
        i <= j <= s.len(),
        forall|m: int| i <= m < j ==> s[m] != c,
    ensures
        find_from(s, c, i) == find_from(s, c, j),
    decreases j - i,
{
    if i < j {
        lemma_find_from_skip(s, c, i + 1, j);
    }
}

/// The lines of a text with a prefix in front, from within the text, are the lines of the
/// text alone.
pub proof fn lemma_lines_from_shift(p: Seq<char>, y: Seq<char>, k: nat)
    ensures
        lines_from(p + y, p.len() + k) == lines_from(y, k),
    decreases y.len() + 1 - k,
{
    let s = p + y;
    if k < y.len() {
        lemma_find_from_shift(p, y, '\n', k);
        lemma_find_from(y, '\n', k);
        let e = find_from(y, '\n', k);
        assert(s.subrange((p.len() + k) as int, (p.len() + e) as int) == y.subrange(k as int, e as int));
        lemma_lines_from_shift(p, y, e + 1);
        assert(p.len() + e + 1 == p.len() + (e + 1));
    }
}

/// A text that starts with a line `x` and its `\n` has the line `x` (without a final `\r`)
/// and then the lines of what follows.
pub proof fn lemma_lines_cons(x: Seq<char>, y: Seq<char>)
    requires
        forall|i: int| 0 <= i < x.len() ==> x[i] != '\n',
    ensures
        lines(x + seq!['\n'] + y) == seq![strip_cr(x)] + lines(y),
{
    let p = x + seq!['\n'];
    let s = p + y;
    lemma_find_from_skip(s, '\n', 0, x.len());
    assert(s[x.len() as int] == '\n');
    assert(find_from(s, '\n', x.len()) == x.len());
    assert(s.subrange(0, x.len() as int) == x);
    lemma_lines_from_shift(p, y, 0);
    assert(p.len() + 0 == x.len() + 1);
}

/// The lines of two texts joined after a line break are the lines of each, in turn.
pub proof fn lemma_lines_concat(a: Seq<char>, b: Seq<char>)
    requires
        a.len() == 0 || a.last() == '\n',
    ensures
        lines(a + b) == lines(a) + lines(b),
    decreases a.len(),
{
    if a.len() == 0 {
        assert(a + b == b);
        assert(lines(a) == Seq::<Seq<char>>::empty());
        assert(lines(a) + lines(b) == lines(b));
    } else {
        lemma_find_from(a, '\n', 0);
        let e = find_from(a, '\n', 0);
        if e == a.len() {
            assert(a[a.len() - 1] == '\n');
        }
        let x = a.subrange(0, e as int);
        let y = a.subrange(e + 1 as int, a.len() as int);
        assert(a == x + seq!['\n'] + y);
        assert forall|i: int| 0 <= i < x.len() implies x[i] != '\n' by {
            assert(x[i] == a[i]);
        }
        lemma_lines_cons(x, y);
        assert(a + b == x + seq!['\n'] + (y + b));
        lemma_lines_cons(x, y + b);
        if y.len() > 0 {
            assert(y.last() == a.last());
        }
        lemma_lines_concat(y, b);
        assert(seq![strip_cr(x)] + (lines(y) + lines(b)) == (seq![strip_cr(x)] + lines(y)) + lines(
            b,
        ));
    }
}

/// `s` with each `\n` written as `\r\n`.
pub open spec fn crlf(s: Seq<char>) -> Seq<char>
    decreases s.len(),
{
    if s.len() == 0 {
        seq![]
    } else {
        (if s[0] == '\n' {
            seq!['\r', '\n']
        } else {
            seq![s[0]]
        }) + crlf(s.drop_first())
    }
}

/// Writing line breaks as `\r\n` works piece by piece.
pub proof fn lemma_crlf_concat(a: Seq<char>, b: Seq<char>)
    ensures
        crlf(a + b) == crlf(a) + crlf(b),
    decreases a.len(),
{
    if a.len() == 0 {
        assert(a + b == b);
        assert(crlf(a) + crlf(b) == crlf(b));
    } else {
        assert((a + b).drop_first() == a.drop_first() + b);
        assert((a + b)[0] == a[0]);
        lemma_crlf_concat(a.drop_first(), b);
    }
}

/// A text without line breaks is left as it is.
pub proof fn lemma_crlf_plain(s: Seq<char>)
    requires
        forall|i: int| 0 <= i < s.len() ==> s[i] != '\n',
    ensures
        crlf(s) == s,
    decreases s.len(),
{
    if s.len() > 0 {
        assert forall|i: int| 0 <= i < s.drop_first().len() implies s.drop_first()[i] != '\n' by {
            assert(s.drop_first()[i] == s[i + 1]);
        }
        lemma_crlf_plain(s.drop_first());
        assert(seq![s[0]] + s.drop_first() == s);
    }
}

/// Trimming ignores a whitespace character added at the end.
pub proof fn lemma_trim_push_ws(s: Seq<char>, w: char)
    requires
        is_ws(w),
    ensures
        trim(s.push(w)) == trim(s),
{
    lemma_trim_start_push_ws(s, w);
    let t = trim_start(s);
    if t.len() > 0 {
        assert(t.push(w).drop_last() == t);
    } else {
        assert(trim_end(Seq::<char>::empty()) == Seq::<char>::empty());
    }
}

proof fn lemma_trim_start_push_ws(s: Seq<char>, w: char)
    requires
        is_ws(w),
    ensures
        trim_start(s.push(w)) == (if trim_start(s).len() == 0 {
            Seq::<char>::empty()
        } else {
            trim_start(s).push(w)
        }),
    decreases s.len(),
{
    if s.len() == 0 {
        assert(seq![w].drop_first() =~= Seq::<char>::empty());
        assert(trim_start(Seq::<char>::empty()) == Seq::<char>::empty());
        assert(s.push(w) == seq![w]);
    } else if is_ws(s[0]) {
        assert(s.push(w).drop_first() == s.drop_first().push(w));
        lemma_trim_start_push_ws(s.drop_first(), w);
    }
}

/// A line reads the same with or without the `\r` that `strip_cr` removes, once trimmed.
pub proof fn lemma_trim_strip_cr(s: Seq<char>)
    ensures
        trim(strip_cr(s)) == trim(s),
{
    if s.len() > 0 && s.last() == '\r' {
        assert(s.drop_last().push('\r') == s);
        lemma_trim_push_ws(s.drop_last(), '\r');
    }
}

/// The character sequences that a vector of lines holds.
pub open spec fn views(v: Seq<Vec<char>>) -> Seq<Seq<char>> {
    v.map_values(|l: Vec<char>| l@)
}

/// The character sequences that a sequence of `(name, value)` pairs holds.
pub open spec fn pair_views(v: Seq<(String, String)>) -> Seq<(Seq<char>, Seq<char>)> {
    v.map_values(|p: (String, String)| (p.0@, p.1@))
}

/// Splits `s` into its lines, as `str::lines` does.
pub fn split_lines(s: &Vec<char>) -> (r: Vec<Vec<char>>)
    ensures
        views(r@) == lines(s@),
{
    let mut r: Vec<Vec<char>> = Vec::new();
    let mut i: usize = 0;
    assert(views(r@) =~= Seq::<Seq<char>>::empty());
    while i < s.len()
        invariant
            i <= s.len(),
            lines(s@) == views(r@) + lines_from(s@, i as nat),
        decreases s.len() - i,
    {
        let e: usize = find_in_range(s, '\n', 0, i, s.len());
        assert(s@.subrange(0, s.len() as int) == s@);
        let mut end: usize = e;
        if e < s.len() && e > i && s[e - 1] == '\r' {
            end = e - 1;
        }
        let line = copy_range(s, i, end);
        proof {
            lemma_find_from(s@, '\n', i as nat);
            let raw = s@.subrange(i as int, e as int);
            if e < s.len() {
                if raw.len() > 0 && raw.last() == '\r' {
                    assert(raw.drop_last() == s@.subrange(i as int, end as int));
                }
                assert(line@ == strip_cr(raw));
            }
            assert(lines_from(s@, i as nat) == seq![line@] + lines_from(s@, e as nat + 1));
        }
        let ghost before = r@;
        r.push(line);
        assert(views(r@) =~= views(before).push(line@));
        if e < s.len() {
            i = e + 1;
        } else {
            i = e;
            assert(lines_from(s@, e as nat + 1) =~= Seq::<Seq<char>>::empty());
        }
        assert(views(r@) + lines_from(s@, i as nat) =~= views(before) + (seq![line@]
            + lines_from(s@, i as nat)));
    }
    assert(lines_from(s@, i as nat) =~= Seq::<Seq<char>>::empty());
    assert(views(r@) + Seq::<Seq<char>>::empty() =~= views(r@));
    r
}

} // verus!
