//! The cache file (`export KEY='value'` lines), its metadata file (date, timestamp and
//! secrets hash, one per line), and the rules that decide when the cache must be
//! refreshed and how old it is.
use vstd::prelude::*;

use crate::config::Config;
use vstd::arithmetic::div_mod::lemma_fundamental_div_mod_converse;
use crate::number::{
    int_text, is_digit, is_lower_hex, lemma_i64_text_round_trip, lemma_int_text_chars, parse_i64, parse_i64_spec,
    push_i64,
};
use crate::secrets::{hash_secrets_file, hash_text, lemma_hash_text_shape};
use crate::text::{
    chars_of, find_char, find_from, find_in_range, is_ws, lemma_find_from, lemma_find_from_skip,
    lemma_lines_cons, lines, pair_views, push_range, push_str, range_starts_with, split_lines,
    strip_cr, strip_end, strip_range, strip_start, string_of, trim, trim_end, trim_start,
    trim_range, views,
};

verus! {

/// Metadata stored alongside the cache for freshness checks.
#[derive(Debug, Clone)]
pub struct CacheMeta {
    /// The local date of the write, `YYYY-MM-DD`.
    pub date: String,
    /// The Unix time of the write, in seconds.
    pub timestamp: i64,
    /// The hash of the secrets file at the time of the write.
    pub secrets_hash: String,
}

/// The mathematical content of a [`CacheMeta`].
pub ghost struct MetaSpec {
    pub date: Seq<char>,
    pub timestamp: i64,
    pub secrets_hash: Seq<char>,
}

impl View for CacheMeta {
    type V = MetaSpec;

    open spec fn view(&self) -> MetaSpec {
        MetaSpec { date: self.date@, timestamp: self.timestamp, secrets_hash: self.secrets_hash@ }
    }
}

/// Why a metadata file could not be read.
#[derive(Debug, Clone, Copy, PartialEq, Eq)]
pub enum MetaError {
    /// It has fewer than 3 lines (how many it has).
    TooFewLines(usize),
    /// Its second line is not an `i64`.
    BadTimestamp,
}

/// A reading of the local clock, taken by the caller.
#[derive(Debug, Clone)]
pub struct ClockReading {
    /// The local date, `YYYY-MM-DD`.
    pub date: String,
    /// The Unix time, in seconds.
    pub timestamp: i64,
}

/// The metadata file's text: date, timestamp and hash, each on a line of its own.
pub open spec fn meta_text_spec(m: MetaSpec) -> Seq<char> {
    m.date + seq!['\n'] + int_text(m.timestamp as int) + seq!['\n'] + m.secrets_hash + seq!['\n']
}

/// What reading a metadata file gives: its first three lines, the second one read as an
/// `i64`.
pub open spec fn read_meta_spec(s: Seq<char>) -> Result<MetaSpec, MetaError> {
    let ls = lines(s);
    if ls.len() < 3 {
        Err(MetaError::TooFewLines(ls.len() as usize))
    } else {
        match parse_i64_spec(ls[1]) {
            None => Err(MetaError::BadTimestamp),
            Some(t) => Ok(MetaSpec { date: ls[0], timestamp: t, secrets_hash: ls[2] }),
        }
    }
}

/// The text of the metadata file for `meta`.
pub fn meta_text(meta: &CacheMeta) -> (r: String)
    ensures
        r@ == meta_text_spec(meta@),
{
    let mut out: Vec<char> = Vec::new();
    push_str(&mut out, meta.date.as_str());
    out.push('\n');
    push_i64(&mut out, meta.timestamp);
    out.push('\n');
    push_str(&mut out, meta.secrets_hash.as_str());
    out.push('\n');
    string_of(&out)
}

/// Reads the metadata file's text.
pub fn read_meta(content: &str) -> (r: Result<CacheMeta, MetaError>)
    ensures
        match r {
            Ok(m) => read_meta_spec(content@) == Ok::<MetaSpec, MetaError>(m@),
            Err(e) => read_meta_spec(content@) == Err::<MetaSpec, MetaError>(e),
        },
{
    let cs = chars_of(content);
    let ls = split_lines(&cs);
    assert(views(ls@).len() == ls@.len());
    if ls.len() < 3 {
        return Err(MetaError::TooFewLines(ls.len()));
    }
    assert(views(ls@)[1] == ls@[1]@);
    assert(ls@[1]@.subrange(0, ls@[1]@.len() as int) == ls@[1]@);
    match parse_i64(&ls[1], 0, ls[1].len()) {
        None => Err(MetaError::BadTimestamp),
        Some(t) => {
            assert(views(ls@)[0] == ls@[0]@);
            assert(views(ls@)[2] == ls@[2]@);
            Ok(CacheMeta { date: string_of(&ls[0]), timestamp: t, secrets_hash: string_of(&ls[2]) })
        },
    }
}

/// The prefix of a cache line.
pub open spec fn export_word() -> Seq<char> {
    "export "@
}

/// A value inside single quotes: each `'` becomes `'\''`.
pub open spec fn escape_quotes(v: Seq<char>) -> Seq<char>
    decreases v.len(),
{
    if v.len() == 0 {
        seq![]
    } else {
        (if v[0] == '\'' {
            seq!['\'', '\\', '\'', '\'']
        } else {
            seq![v[0]]
        }) + escape_quotes(v.drop_first())
    }
}

/// The cache line for one `(name, value)` pair: `export NAME='value'` and a newline.
pub open spec fn export_line(k: Seq<char>, v: Seq<char>) -> Seq<char> {
    export_word() + k + seq!['=', '\''] + escape_quotes(v) + seq!['\'', '\n']
}

/// The cache file's text: one line per pair, in order.
pub open spec fn cache_text_spec(ps: Seq<(Seq<char>, Seq<char>)>) -> Seq<char>
    decreases ps.len(),
{
    if ps.len() == 0 {
        seq![]
    } else {
        export_line(ps[0].0, ps[0].1) + cache_text_spec(ps.drop_first())
    }
}

/// A quoted value with each `'\''` read back as the `'` it stands for.
pub open spec fn unescape_quotes(s: Seq<char>) -> Seq<char>
    decreases s.len(),
{
    if s.len() == 0 {
        seq![]
    } else if s.len() >= 4 && s.take(4) == seq!['\'', '\\', '\'', '\''] {
        seq!['\''] + unescape_quotes(s.skip(4))
    } else {
        seq![s[0]] + unescape_quotes(s.drop_first())
    }
}

/// Whether `s` is something the escaping writes: each `'` in it stands in a `'\''`.
pub open spec fn is_escaped(s: Seq<char>) -> bool
    decreases s.len(),
{
    if s.len() == 0 {
        true
    } else if s.len() >= 4 && s.take(4) == seq!['\'', '\\', '\'', '\''] {
        is_escaped(s.skip(4))
    } else if s[0] == '\'' {
        false
    } else {
        is_escaped(s.drop_first())
    }
}

/// The value that the text after a cache line's `=` gives: where it is a pair of single
/// quotes around what the escaping writes, that text with each `'\''` read back as `'`;
/// otherwise the text without its leading and trailing `'`s.
pub open spec fn cache_value(q: Seq<char>) -> Seq<char> {
    if q.len() >= 2 && q[0] == '\'' && q.last() == '\'' && is_escaped(q.subrange(1, q.len() - 1)) {
        unescape_quotes(q.subrange(1, q.len() - 1))
    } else {
        strip_end(strip_start(q, '\''), '\'')
    }
}

/// What one line of the cache file gives: the trimmed line must start with `export `; the
/// name runs to the first `=`; the value is what the rest gives (`cache_value`).
pub open spec fn cache_line(line: Seq<char>) -> Option<(Seq<char>, Seq<char>)> {
    let t = trim(line);
    let w = export_word();
    if t.len() >= w.len() && t.subrange(0, w.len() as int) == w {
        let rest = t.subrange(w.len() as int, t.len() as int);
        match find_char(rest, '=', 0) {
            None => None,
            Some(p) => Some(
                (
                    rest.subrange(0, p as int),
                    cache_value(rest.subrange(p + 1 as int, rest.len() as int)),
                ),
            ),
        }
    } else {
        None
    }
}

/// The pairs that the lines of a cache file give, in order.
pub open spec fn cache_entries(ls: Seq<Seq<char>>) -> Seq<(Seq<char>, Seq<char>)>
    decreases ls.len(),
{
    if ls.len() == 0 {
        seq![]
    } else {
        (match cache_line(ls[0]) {
            Some(p) => seq![p],
            None => seq![],
        }) + cache_entries(ls.drop_first())
    }
}

/// Appends `v` to `out` with each `'` written as `'\''`.
fn push_escaped(out: &mut Vec<char>, v: &str)
    ensures
        final(out)@ == old(out)@ + escape_quotes(v@),
{
    let cs = chars_of(v);
    let ghost start = out@;
    let mut i: usize = 0;
    assert(cs@.skip(0) == cs@);
    while i < cs.len()
        invariant
            i <= cs.len(),
            cs@ == v@,
            start + escape_quotes(cs@) == out@ + escape_quotes(cs@.skip(i as int)),
        decreases cs.len() - i,
    {
        let ghost rest = cs@.skip(i as int);
        assert(rest.drop_first() == cs@.skip(i + 1));
        if cs[i] == '\'' {
            out.push('\'');
            out.push('\\');
            out.push('\'');
            out.push('\'');
        } else {
            out.push(cs[i]);
        }
        i = i + 1;
    }
    assert(cs@.skip(cs.len() as int) =~= Seq::<char>::empty());
}

/// The text of the cache file for the resolved `(name, value)` pairs.
pub fn cache_text(resolved: &[(String, String)]) -> (r: String)
    ensures
        r@ == cache_text_spec(pair_views(resolved@)),
{
    let mut out: Vec<char> = Vec::new();
    let ghost ps = pair_views(resolved@);
    let mut i: usize = 0;
    assert(ps.skip(0) == ps);
    while i < resolved.len()
        invariant
            i <= resolved@.len(),
            ps == pair_views(resolved@),
            cache_text_spec(ps) == out@ + cache_text_spec(ps.skip(i as int)),
        decreases resolved@.len() - i,
    {
        let ghost rest = ps.skip(i as int);
        assert(rest.drop_first() == ps.skip(i + 1));
        assert(rest[0] == (resolved@[i as int].0@, resolved@[i as int].1@));
        push_str(&mut out, "export ");
        push_str(&mut out, resolved[i].0.as_str());
        out.push('=');
        out.push('\'');
        push_escaped(&mut out, resolved[i].1.as_str());
        out.push('\'');
        out.push('\n');
        i = i + 1;
    }
    assert(ps.skip(i as int) =~= Seq::<(Seq<char>, Seq<char>)>::empty());
    string_of(&out)
}

/// Appends `s[lo..hi]` to `out` with each `'\''` read back as `'`.
fn push_unescaped(out: &mut Vec<char>, s: &Vec<char>, lo: usize, hi: usize)
    requires
        lo <= hi <= s.len(),
    ensures
        final(out)@ == old(out)@ + unescape_quotes(s@.subrange(lo as int, hi as int)),
{
    let ghost start = out@;
    let mut i: usize = lo;
    while i < hi
        invariant
            lo <= i <= hi <= s.len(),
            start + unescape_quotes(s@.subrange(lo as int, hi as int)) == out@ + unescape_quotes(
                s@.subrange(i as int, hi as int),
            ),
        decreases hi - i,
    {
        let ghost t = s@.subrange(i as int, hi as int);
        if hi - i >= 4 && s[i] == '\'' && s[i + 1] == '\\' && s[i + 2] == '\'' && s[i + 3] == '\'' {
            assert(t.take(4) =~= seq!['\'', '\\', '\'', '\'']);
            assert(t.skip(4) =~= s@.subrange(i + 4, hi as int));
            out.push('\'');
            i = i + 4;
        } else {
            proof {
                if t.len() >= 4 && t.take(4) == seq!['\'', '\\', '\'', '\''] {
                    assert(t.take(4)[0] == s@[i as int]);
                    assert(t.take(4)[1] == s@[i + 1]);
                    assert(t.take(4)[2] == s@[i + 2]);
                    assert(t.take(4)[3] == s@[i + 3]);
                }
            }
            assert(t[0] == s@[i as int]);
            assert(t.drop_first() =~= s@.subrange(i + 1, hi as int));
            out.push(s[i]);
            i = i + 1;
        }
    }
    assert(s@.subrange(hi as int, hi as int) =~= Seq::<char>::empty());
}

/// Whether `s[lo..hi]` is something the escaping writes.
fn range_is_escaped(s: &Vec<char>, lo: usize, hi: usize) -> (r: bool)
    requires
        lo <= hi <= s.len(),
    ensures
        r == is_escaped(s@.subrange(lo as int, hi as int)),
{
    let mut i: usize = lo;
    while i < hi
        invariant
            lo <= i <= hi <= s.len(),
            is_escaped(s@.subrange(lo as int, hi as int)) == is_escaped(
                s@.subrange(i as int, hi as int),
            ),
        decreases hi - i,
    {
        let ghost t = s@.subrange(i as int, hi as int);
        if hi - i >= 4 && s[i] == '\'' && s[i + 1] == '\\' && s[i + 2] == '\'' && s[i + 3] == '\'' {
            assert(t.take(4) =~= seq!['\'', '\\', '\'', '\'']);
            assert(t.skip(4) =~= s@.subrange(i + 4, hi as int));
            i = i + 4;
        } else {
            proof {
                if t.len() >= 4 && t.take(4) == seq!['\'', '\\', '\'', '\''] {
                    assert(t.take(4)[0] == s@[i as int]);
                    assert(t.take(4)[1] == s@[i + 1]);
                    assert(t.take(4)[2] == s@[i + 2]);
                    assert(t.take(4)[3] == s@[i + 3]);
                }
            }
            assert(t[0] == s@[i as int]);
            if s[i] == '\'' {
                return false;
            }
            assert(t.drop_first() =~= s@.subrange(i + 1, hi as int));
            i = i + 1;
        }
    }
    assert(s@.subrange(hi as int, hi as int) =~= Seq::<char>::empty());
    true
}

/// The value that `s[lo..hi]`, the text after a cache line's `=`, gives.
fn value_of(s: &Vec<char>, lo: usize, hi: usize) -> (r: Vec<char>)
    requires
        lo <= hi <= s.len(),
    ensures
        r@ == cache_value(s@.subrange(lo as int, hi as int)),
{
    let ghost q = s@.subrange(lo as int, hi as int);
    let mut value: Vec<char> = Vec::new();
    if hi - lo >= 2 && s[lo] == '\'' && s[hi - 1] == '\'' && range_is_escaped(s, lo + 1, hi - 1) {
        assert(q.subrange(1, q.len() - 1) == s@.subrange(lo + 1, hi - 1));
        push_unescaped(&mut value, s, lo + 1, hi - 1);
    } else {
        proof {
            if q.len() >= 2 && q[0] == '\'' && q.last() == '\'' {
                assert(q.subrange(1, q.len() - 1) == s@.subrange(lo + 1, hi - 1));
            }
        }
        let (va, vb): (usize, usize) = strip_range(s, lo, hi, '\'');
        push_range(&mut value, s, va, vb);
    }
    value
}

/// Reads one line of the cache file.
fn read_cache_line(line: &Vec<char>, word: &Vec<char>) -> (r: Option<(String, String)>)
    requires
        word@ == export_word(),
    ensures
        match r {
            Some(p) => cache_line(line@) == Some((p.0@, p.1@)),
            None => cache_line(line@) is None,
        },
{
    let (a, b): (usize, usize) = trim_range(line, 0, line.len());
    assert(line@.subrange(0, line.len() as int) == line@);
    let ghost t = line@.subrange(a as int, b as int);
    assert(t == trim(line@));
    if !range_starts_with(line, a, b, word) {
        assert(t.len() >= word@.len() ==> t.subrange(0, word@.len() as int) == line@.subrange(
            a as int,
            a + word@.len(),
        ));
        return None;
    }
    assert(t.subrange(0, word@.len() as int) == line@.subrange(a as int, a + word@.len()));
    let s: usize = a + word.len();
    let ghost rest = t.subrange(word.len() as int, t.len() as int);
    assert(rest == line@.subrange(s as int, b as int));
    let p: usize = find_in_range(line, '=', s, s, b);
    proof {
        lemma_find_from(rest, '=', 0);
    }
    assert(find_char(rest, '=', 0) == if p < b {
        Some((p - s) as nat)
    } else {
        None::<nat>
    });
    if p == b {
        return None;
    }
    let key = string_of(&crate::text::copy_range(line, s, p));
    assert(key@ == rest.subrange(0, p - s));
    let ghost q = rest.subrange(p - s + 1, rest.len() as int);
    assert(line@.subrange(p + 1, b as int) == q);
    let value = value_of(line, p + 1, b);
    let value = string_of(&value);
    assert(value@ == cache_value(q));
    Some((key, value))
}

/// Reads the `(name, value)` pairs from the cache file's text.
pub fn read_cache(content: &str) -> (r: Vec<(String, String)>)
    ensures
        pair_views(r@) == cache_entries(lines(content@)),
{
    let cs = chars_of(content);
    let ls = split_lines(&cs);
    let word = chars_of("export ");
    let mut r: Vec<(String, String)> = Vec::new();
    let ghost all = views(ls@);
    let mut i: usize = 0;
    assert(all.skip(0) == all);
    assert(pair_views(r@) =~= Seq::<(Seq<char>, Seq<char>)>::empty());
    while i < ls.len()
        invariant
            i <= ls@.len(),
            all == views(ls@),
            all == lines(content@),
            word@ == export_word(),
            cache_entries(all) == pair_views(r@) + cache_entries(all.skip(i as int)),
        decreases ls@.len() - i,
    {
        let ghost rest = all.skip(i as int);
        assert(rest.drop_first() == all.skip(i + 1));
        assert(rest[0] == ls@[i as int]@);
        let ghost before = r@;
        match read_cache_line(&ls[i], &word) {
            Some(p) => {
                r.push(p);
                assert(pair_views(r@) =~= pair_views(before).push((r@.last().0@, r@.last().1@)));
            },
            None => {},
        }
        i = i + 1;
    }
    assert(all.skip(i as int) =~= Seq::<Seq<char>>::empty());
    r
}

/// Whether a cache written with `meta` is stale at the clock reading (`today`, `now`):
/// the date changed, or more than `ttl` seconds passed (the true difference of the times).
pub open spec fn refresh_due(meta: MetaSpec, today: Seq<char>, now: i64, ttl: u64) -> bool {
    meta.date != today || now - meta.timestamp > ttl
}

/// Whether a cache written with `meta` is stale at the clock reading `clock`.
pub fn refresh_due_at(meta: &CacheMeta, clock: &ClockReading, ttl: u64) -> (r: bool)
    ensures
        r == refresh_due(meta@, clock.date@, clock.timestamp, ttl),
{
    if meta.date != clock.date {
        return true;
    }
    let elapsed: i128 = clock.timestamp as i128 - meta.timestamp as i128;
    elapsed > ttl as i128
}

/// Whether the cache must be refreshed whatever its files hold: when forced, or when the
/// cache or its metadata file is missing.
pub fn refresh_forced(config: &Config, files_present: bool) -> (r: bool)
    ensures
        r == (config.force || !files_present),
{
    config.force || !files_present
}

/// Whether the cache must be refreshed: when forced; when the cache or its metadata file
/// is missing (`files_present` false); when the metadata's secrets hash differs from the
/// hash of `secrets_content`; and otherwise when it is stale at the clock reading `clock`.
/// The metadata's text is read only where the first two do not decide; an error reading
/// it is passed on.
pub fn needs_refresh(
    config: &Config,
    files_present: bool,
    meta_content: &str,
    secrets_content: &[u8],
    clock: &ClockReading,
) -> (r: Result<bool, MetaError>)
    ensures
        config.force ==> r == Ok::<bool, MetaError>(true),
        !config.force && !files_present ==> r == Ok::<bool, MetaError>(true),
        !config.force && files_present ==> match read_meta_spec(meta_content@) {
            Err(e) => r == Err::<bool, MetaError>(e),
            Ok(m) => r == Ok::<bool, MetaError>(
                m.secrets_hash != hash_text(secrets_content@) || refresh_due(
                    m,
                    clock.date@,
                    clock.timestamp,
                    config.ttl,
                ),
            ),
        },
{
    if refresh_forced(config, files_present) {
        return Ok(true);
    }
    let meta = match read_meta(meta_content) {
        Ok(m) => m,
        Err(e) => {
            return Err(e);
        },
    };
    let current = hash_secrets_file(secrets_content);
    if meta.secrets_hash != current {
        return Ok(true);
    }
    Ok(refresh_due_at(&meta, clock, config.ttl))
}

/// Rust's `/` on integers: the quotient rounded toward zero (for `b > 0`).
pub open spec fn tdiv(a: int, b: int) -> int {
    if a >= 0 {
        a / b
    } else {
        -((-a) / b)
    }
}

/// Rust's `%` on integers: the remainder with the sign of `a` (for `b > 0`).
pub open spec fn trem(a: int, b: int) -> int {
    if a >= 0 {
        a % b
    } else {
        -((-a) % b)
    }
}

/// How old a cache written at `then` is at `now`: `{h}h{m}m old` where it is at least an
/// hour old, else `{m}m old` (hours and minutes of the true difference, rounded toward zero).
pub open spec fn age_text(now: i64, then: i64) -> Seq<char> {
    let diff = now - then;
    let hours = tdiv(diff, 3600);
    let mins = tdiv(trem(diff, 3600), 60);
    if hours > 0 {
        int_text(hours) + "h"@ + int_text(mins) + "m old"@
    } else {
        int_text(mins) + "m old"@
    }
}

/// The age text shows the whole hours and the whole minutes left after them: a cache
/// `h` hours, `m` minutes and `s` seconds old (`m`, `s` under 60) reads `{h}h{m}m old`,
/// and under an hour old, `{m}m old`.
pub proof fn lemma_age_text_parts(now: i64, then: i64, h: int, m: int, s: int)
    requires
        h >= 0,
        0 <= m < 60,
        0 <= s < 60,
        now - then == 3600 * h + 60 * m + s,
    ensures
        h > 0 ==> age_text(now, then) == int_text(h) + "h"@ + int_text(m) + "m old"@,
        h == 0 ==> age_text(now, then) == int_text(m) + "m old"@,
{
    let d = now - then;
    lemma_fundamental_div_mod_converse(d, 3600, h, 60 * m + s);
    lemma_fundamental_div_mod_converse(60 * m + s, 60, m, s);
}

/// A time before the cache was written reads as the whole minutes of the difference,
/// negative, and no hours: `h` hours, `m` minutes and `s` seconds early read `-{m}m old`
/// (`0m old` under a minute).
pub proof fn lemma_age_text_early(now: i64, then: i64, h: int, m: int, s: int)
    requires
        h >= 0,
        0 <= m < 60,
        0 <= s < 60,
        then - now == 3600 * h + 60 * m + s,
    ensures
        age_text(now, then) == int_text(-m) + "m old"@,
{
    let d = then - now;
    lemma_fundamental_div_mod_converse(d, 3600, h, 60 * m + s);
    lemma_fundamental_div_mod_converse(60 * m + s, 60, m, s);
}

/// How old a cache written at `then` is at `now`, as text.
pub fn format_age(now: i64, then: i64) -> (r: String)
    ensures
        r@ == age_text(now, then),
{
    let diff: i128 = now as i128 - then as i128;
    let hours: i128 = diff / 3600;
    let mins: i128 = (diff % 3600) / 60;
    let mut out: Vec<char> = Vec::new();
    if hours > 0 {
        assert(hours <= i64::MAX) by (nonlinear_arith)
            requires
                hours == diff / 3600,
                diff <= 0x1_0000_0000_0000_0000,
                diff >= 0,
        ;
        push_i64(&mut out, hours as i64);
        push_str(&mut out, "h");
    }
    push_i64(&mut out, mins as i64);
    push_str(&mut out, "m old");
    string_of(&out)
}

/// How old the cache is, from its metadata's text and the clock reading `clock`; an error
/// reading the metadata is passed on.
pub fn cache_age(meta_content: &str, clock: &ClockReading) -> (r: Result<String, MetaError>)
    ensures
        match read_meta_spec(meta_content@) {
            Err(e) => r == Err::<String, MetaError>(e),
            Ok(m) => r matches Ok(s) && s@ == age_text(clock.timestamp, m.timestamp),
        },
{
    let meta = match read_meta(meta_content) {
        Ok(m) => m,
        Err(e) => {
            return Err(e);
        },
    };
    Ok(format_age(clock.timestamp, meta.timestamp))
}

/// The metadata for a cache written at the clock reading `clock`: its date and time, and
/// the hash of the secrets file's bytes.
pub fn new_meta(secrets_content: &[u8], clock: &ClockReading) -> (r: CacheMeta)
    ensures
        r.date@ == clock.date@,
        r.timestamp == clock.timestamp,
        r.secrets_hash@ == hash_text(secrets_content@),
{
    CacheMeta {
        date: clock.date.clone(),
        timestamp: clock.timestamp,
        secrets_hash: hash_secrets_file(secrets_content),
    }
}

/// Whether `s` can stand on a line of its own and be read back: it holds no `\n` and does
/// not end in `\r`.
pub open spec fn fits_one_line(s: Seq<char>) -> bool {
    &&& forall|i: int| 0 <= i < s.len() ==> s[i] != '\n'
    &&& !(s.len() > 0 && s.last() == '\r')
}

/// Reading back the metadata file written for `m` gives `m`, where its date and hash each
/// fit on one line.
pub proof fn lemma_meta_round_trip(m: MetaSpec)
    requires
        fits_one_line(m.date),
        fits_one_line(m.secrets_hash),
    ensures
        read_meta_spec(meta_text_spec(m)) == Ok::<MetaSpec, MetaError>(m),
{
    let ts = int_text(m.timestamp as int);
    lemma_int_text_chars(m.timestamp as int);
    assert forall|i: int| 0 <= i < ts.len() implies ts[i] != '\n' by {
        assert(is_digit(ts[i]) || ts[i] == '-');
    }
    let tail = m.secrets_hash + seq!['\n'];
    lemma_lines_cons(m.secrets_hash, Seq::<char>::empty());
    assert(m.secrets_hash + seq!['\n'] + Seq::<char>::empty() == tail);
    assert(lines(Seq::<char>::empty()) == Seq::<Seq<char>>::empty());
    let mid = ts + seq!['\n'] + tail;
    lemma_lines_cons(ts, tail);
    let all = m.date + seq!['\n'] + mid;
    lemma_lines_cons(m.date, mid);
    assert(all == meta_text_spec(m));
    assert(strip_cr(m.date) == m.date);
    assert(strip_cr(m.secrets_hash) == m.secrets_hash);
    assert(strip_cr(ts) == ts);
    let ls = lines(all);
    assert(ls =~= seq![m.date, ts, m.secrets_hash]);
    lemma_i64_text_round_trip(m.timestamp);
}

/// Whether a `(name, value)` pair reads back from its cache line as it was written: the
/// name holds no `=` and no `\n`, the value no `\n`.
pub open spec fn reads_back(k: Seq<char>, v: Seq<char>) -> bool {
    &&& forall|i: int| 0 <= i < k.len() ==> k[i] != '=' && k[i] != '\n'
    &&& forall|i: int| 0 <= i < v.len() ==> v[i] != '\n'
}

/// Escaping puts no `\n` into a value that has none.
pub proof fn lemma_escape_no_newline(v: Seq<char>)
    requires
        forall|i: int| 0 <= i < v.len() ==> v[i] != '\n',
    ensures
        forall|i: int| 0 <= i < escape_quotes(v).len() ==> escape_quotes(v)[i] != '\n',
    decreases v.len(),
{
    if v.len() > 0 {
        assert forall|i: int| 0 <= i < v.drop_first().len() implies v.drop_first()[i] != '\n' by {
            assert(v.drop_first()[i] == v[i + 1]);
        }
        lemma_escape_no_newline(v.drop_first());
        let head = if v[0] == '\'' {
            seq!['\'', '\\', '\'', '\'']
        } else {
            seq![v[0]]
        };
        let e = escape_quotes(v);
        let r = escape_quotes(v.drop_first());
        assert(e == head + r);
        assert forall|i: int| 0 <= i < e.len() implies e[i] != '\n' by {
            if i >= head.len() {
                assert(e[i] == r[i - head.len()]);
            }
        }
    }
}

/// An escaped value is something the escaping writes, and reading it back gives the value.
pub proof fn lemma_unescape_escape(v: Seq<char>)
    ensures
        is_escaped(escape_quotes(v)),
        unescape_quotes(escape_quotes(v)) == v,
    decreases v.len(),
{
    if v.len() > 0 {
        lemma_unescape_escape(v.drop_first());
        let r = escape_quotes(v.drop_first());
        let e = escape_quotes(v);
        let q4 = seq!['\'', '\\', '\'', '\''];
        if v[0] == '\'' {
            assert(e == q4 + r);
            assert(e.take(4) == q4);
            assert(e.skip(4) == r);
        } else {
            assert(e == seq![v[0]] + r);
            assert(e[0] == v[0]);
            if e.len() >= 4 {
                assert(e.take(4)[0] != q4[0]);
            }
            assert(e.drop_first() == r);
        }
        assert(v == seq![v[0]] + v.drop_first());
    }
}

/// One cache line reads back as the pair it was written for.
proof fn lemma_cache_line_round_trip(k: Seq<char>, v: Seq<char>)
    requires
        reads_back(k, v),
    ensures
        ({
            let l = export_word() + k + seq!['=', '\''] + escape_quotes(v) + seq!['\''];
            &&& forall|i: int| 0 <= i < l.len() ==> l[i] != '\n'
            &&& strip_cr(l) == l
            &&& cache_line(l) == Some((k, v))
        }),
{
    reveal_strlit("export ");
    let w = export_word();
    let ev = escape_quotes(v);
    lemma_escape_no_newline(v);
    lemma_unescape_escape(v);
    let l = w + k + seq!['=', '\''] + ev + seq!['\''];
    assert(w.len() == 7);
    assert forall|i: int| 0 <= i < l.len() implies l[i] != '\n' by {
        if i < 7 {
        } else if i < 7 + k.len() {
            assert(l[i] == k[i - 7]);
        } else if i < 9 + k.len() {
        } else if i < 9 + k.len() + ev.len() {
            assert(l[i] == ev[i - 9 - k.len()]);
        }
    }
    assert(l[0] == 'e');
    assert(!is_ws(l[0]));
    assert(trim_start(l) == l);
    assert(l.last() == '\'');
    assert(trim_end(l) == l);
    assert(trim(l) == l);
    assert(l.subrange(0, 7) == w);
    let rest = l.subrange(7, l.len() as int);
    assert(rest == k + seq!['=', '\''] + ev + seq!['\'']);
    assert forall|m: int| 0 <= m < k.len() implies rest[m] != '=' by {
        assert(rest[m] == k[m]);
    }
    lemma_find_from_skip(rest, '=', 0, k.len());
    assert(rest[k.len() as int] == '=');
    assert(find_from(rest, '=', k.len()) == k.len());
    assert(find_char(rest, '=', 0) == Some(k.len()));
    assert(rest.subrange(0, k.len() as int) == k);
    let q = rest.subrange(k.len() + 1 as int, rest.len() as int);
    assert(q == seq!['\''] + ev + seq!['\'']);
    assert(q.subrange(1, q.len() - 1) == ev);
    assert(cache_value(q) == v);
}

/// Escaping two texts joined is escaping each and joining them.
pub proof fn lemma_escape_concat(a: Seq<char>, b: Seq<char>)
    ensures
        escape_quotes(a + b) == escape_quotes(a) + escape_quotes(b),
    decreases a.len(),
{
    if a.len() == 0 {
        assert(a + b =~= b);
        assert(escape_quotes(a) + escape_quotes(b) =~= escape_quotes(b));
    } else {
        lemma_escape_concat(a.drop_first(), b);
        assert((a + b)[0] == a[0]);
        assert((a + b).drop_first() =~= a.drop_first() + b);
        let head = if a[0] == '\'' {
            seq!['\'', '\\', '\'', '\'']
        } else {
            seq![a[0]]
        };
        assert(head + (escape_quotes(a.drop_first()) + escape_quotes(b)) =~= (head
            + escape_quotes(a.drop_first())) + escape_quotes(b));
    }
}

/// Escaping a single character writes a `'` as `'\''` and any other character as it is.
pub proof fn lemma_escape_char(c: char)
    ensures
        escape_quotes(seq![c]) == (if c == '\'' {
            seq!['\'', '\\', '\'', '\'']
        } else {
            seq![c]
        }),
{
    assert(seq![c].drop_first() =~= Seq::<char>::empty());
    assert(escape_quotes(Seq::<char>::empty()) == Seq::<char>::empty());
    assert(seq!['\'', '\\', '\'', '\''] + Seq::<char>::empty() =~= seq!['\'', '\\', '\'', '\'']);
    assert(seq![c] + Seq::<char>::empty() =~= seq![c]);
}

/// The cache text of two runs of pairs is the text of the first followed by that of the
/// second.
pub proof fn lemma_cache_text_concat(a: Seq<(Seq<char>, Seq<char>)>, b: Seq<(Seq<char>, Seq<char>)>)
    ensures
        cache_text_spec(a + b) == cache_text_spec(a) + cache_text_spec(b),
    decreases a.len(),
{
    if a.len() == 0 {
        assert(a + b =~= b);
        assert(cache_text_spec(a) + cache_text_spec(b) =~= cache_text_spec(b));
    } else {
        lemma_cache_text_concat(a.drop_first(), b);
        assert((a + b)[0] == a[0]);
        assert((a + b).drop_first() =~= a.drop_first() + b);
        let h = export_line(a[0].0, a[0].1);
        assert(h + (cache_text_spec(a.drop_first()) + cache_text_spec(b)) =~= (h
            + cache_text_spec(a.drop_first())) + cache_text_spec(b));
    }
}

/// One pair gives one cache line: `export `, the name, `='`, the value with each `'`
/// escaped, `'` and a newline.
pub proof fn lemma_cache_text_one(k: Seq<char>, v: Seq<char>)
    ensures
        cache_text_spec(seq![(k, v)]) == "export "@ + k + seq!['=', '\''] + escape_quotes(v) + seq![
            '\'',
            '\n',
        ],
{
    assert(seq![(k, v)].drop_first() =~= Seq::<(Seq<char>, Seq<char>)>::empty());
    assert(cache_text_spec(Seq::<(Seq<char>, Seq<char>)>::empty()) == Seq::<char>::empty());
    let l = export_line(k, v);
    assert(l + Seq::<char>::empty() =~= l);
}

/// The pairs that the lines of a cache file give are those of its first lines followed by
/// those of the rest.
pub proof fn lemma_cache_entries_concat(a: Seq<Seq<char>>, b: Seq<Seq<char>>)
    ensures
        cache_entries(a + b) == cache_entries(a) + cache_entries(b),
    decreases a.len(),
{
    if a.len() == 0 {
        assert(a + b =~= b);
        assert(cache_entries(a) + cache_entries(b) =~= cache_entries(b));
    } else {
        lemma_cache_entries_concat(a.drop_first(), b);
        assert((a + b)[0] == a[0]);
        assert((a + b).drop_first() =~= a.drop_first() + b);
        let h = match cache_line(a[0]) {
            Some(p) => seq![p],
            None => seq![],
        };
        assert(h + (cache_entries(a.drop_first()) + cache_entries(b)) =~= (h + cache_entries(
            a.drop_first(),
        )) + cache_entries(b));
    }
}

/// A line `export NAME=REST`, trimmed, with no `=` in the name, gives the pair of `NAME`
/// and the value that `REST` gives.
pub proof fn lemma_cache_line_fields(line: Seq<char>, k: Seq<char>, q: Seq<char>)
    requires
        trim(line) == "export "@ + k + seq!['='] + q,
        forall|i: int| 0 <= i < k.len() ==> k[i] != '=',
    ensures
        cache_line(line) == Some((k, cache_value(q))),
{
    reveal_strlit("export ");
    let t = trim(line);
    let w = export_word();
    assert(w.len() == 7);
    assert(t.subrange(0, 7) =~= w);
    let rest = t.subrange(7, t.len() as int);
    assert(rest =~= k + seq!['='] + q);
    assert forall|m: int| 0 <= m < k.len() implies rest[m] != '=' by {
        assert(rest[m] == k[m]);
    }
    lemma_find_from_skip(rest, '=', 0, k.len());
    assert(rest[k.len() as int] == '=');
    assert(find_from(rest, '=', k.len()) == k.len());
    assert(rest.subrange(0, k.len() as int) =~= k);
    assert(rest.subrange(k.len() + 1 as int, rest.len() as int) =~= q);
}

/// A value that neither starts nor ends with `'` is read as it is.
pub proof fn lemma_cache_value_plain(q: Seq<char>)
    requires
        !(q.len() > 0 && (q[0] == '\'' || q.last() == '\'')),
    ensures
        cache_value(q) == q,
{
}

/// A value written by the escaping, between single quotes, reads back as the value.
pub proof fn lemma_cache_value_quoted(v: Seq<char>)
    ensures
        cache_value(seq!['\''] + escape_quotes(v) + seq!['\'']) == v,
{
    let q = seq!['\''] + escape_quotes(v) + seq!['\''];
    assert(q.subrange(1, q.len() - 1) =~= escape_quotes(v));
    lemma_unescape_escape(v);
}

/// Stripping the leading `'`s from a run of nothing but `'`s leaves nothing.
proof fn lemma_strip_start_quotes(n: nat)
    ensures
        strip_start(Seq::new(n, |_i: int| '\''), '\'') == Seq::<char>::empty(),
    decreases n,
{
    if n > 0 {
        lemma_strip_start_quotes((n - 1) as nat);
        assert(Seq::new(n, |_i: int| '\'').drop_first() =~= Seq::new((n - 1) as nat, |_i: int| '\''));
    } else {
        assert(Seq::new(n, |_i: int| '\'') =~= Seq::<char>::empty());
    }
}

/// A value of nothing but `'`s reads as empty.
pub proof fn lemma_cache_value_all_quotes(n: nat)
    ensures
        cache_value(Seq::new(n, |_i: int| '\'')) == Seq::<char>::empty(),
{
    let q = Seq::new(n, |_i: int| '\'');
    lemma_strip_start_quotes(n);
    assert(strip_end(Seq::<char>::empty(), '\'') == Seq::<char>::empty());
    if n >= 2 {
        let inner = q.subrange(1, q.len() - 1);
        if n == 2 {
            assert(inner =~= Seq::<char>::empty());
            assert(unescape_quotes(inner) == Seq::<char>::empty());
        } else {
            assert(inner[0] == '\'');
            if inner.len() >= 4 {
                assert(inner.take(4)[1] == '\'');
                assert(inner.take(4) != seq!['\'', '\\', '\'', '\'']) by {
                    assert(seq!['\'', '\\', '\'', '\''][1] == '\\');
                }
            }
            assert(!is_escaped(inner));
        }
    }
}

/// Reading back the cache file written for the pairs `ps` gives `ps`, where each pair reads
/// back from its line.
pub proof fn lemma_cache_round_trip(ps: Seq<(Seq<char>, Seq<char>)>)
    requires
        forall|i: int| 0 <= i < ps.len() ==> reads_back(#[trigger] ps[i].0, ps[i].1),
    ensures
        cache_entries(lines(cache_text_spec(ps))) == ps,
    decreases ps.len(),
{
    if ps.len() == 0 {
        assert(lines(Seq::<char>::empty()) == Seq::<Seq<char>>::empty());
    } else {
        let (k, v) = ps[0];
        assert(reads_back(ps[0].0, ps[0].1));
        let rest = ps.drop_first();
        assert forall|i: int| 0 <= i < rest.len() implies reads_back(#[trigger] rest[i].0, rest[i].1) by {
            assert(rest[i] == ps[i + 1]);
            assert(reads_back(ps[i + 1].0, ps[i + 1].1));
        }
        lemma_cache_round_trip(rest);
        lemma_cache_line_round_trip(k, v);
        let l = export_word() + k + seq!['=', '\''] + escape_quotes(v) + seq!['\''];
        assert(export_line(k, v) == l + seq!['\n']);
        let tail = cache_text_spec(rest);
        assert(cache_text_spec(ps) == l + seq!['\n'] + tail);
        lemma_lines_cons(l, tail);
        let ls = lines(cache_text_spec(ps));
        assert(ls[0] == l);
        assert(ls.drop_first() == lines(tail));
        assert(cache_entries(ls) == seq![(k, v)] + rest);
        assert(seq![(k, v)] + rest == ps);
    }
}

/// A cache written today, no more than `ttl` seconds ago, is not stale; one written longer
/// ago, or on another date, is.
pub proof fn lemma_staleness(meta: MetaSpec, today: Seq<char>, now: i64, ttl: u64)
    ensures
        refresh_due(meta, today, now, ttl) <==> (meta.date != today || now - meta.timestamp > ttl),
        meta.date == today && meta.timestamp <= now <= meta.timestamp + ttl ==> !refresh_due(
            meta,
            today,
            now,
            ttl,
        ),
{
}

/// What to write for a cache: the cache file's text, and the metadata with its text.
pub struct CacheFiles {
    pub cache_text: String,
    pub meta: CacheMeta,
    pub meta_text: String,
}

/// The files to write for the resolved `(name, value)` pairs: the cache file's text, and
/// metadata dated by the clock reading `clock` with the hash of the secrets file's bytes.
/// Both texts read back: the metadata as written where the date fits on one line, and the
/// pairs wherever each name holds no `=` and no newline and each value no newline.
pub fn write_cache(resolved: &[(String, String)], secrets_content: &[u8], clock: &ClockReading) -> (r:
    CacheFiles)
    ensures
        r.cache_text@ == cache_text_spec(pair_views(resolved@)),
        r.meta.date@ == clock.date@,
        r.meta.timestamp == clock.timestamp,
        r.meta.secrets_hash@ == hash_text(secrets_content@),
        r.meta_text@ == meta_text_spec(r.meta@),
        fits_one_line(clock.date@) ==> read_meta_spec(r.meta_text@) == Ok::<MetaSpec, MetaError>(r.meta@),
        (forall|i: int| 0 <= i < resolved@.len() ==> reads_back(#[trigger] pair_views(resolved@)[i].0, pair_views(resolved@)[i].1)) ==> cache_entries(lines(r.cache_text@)) == pair_views(resolved@),
{
    let cache_text = cache_text(resolved);
    let meta = new_meta(secrets_content, clock);
    let meta_text = meta_text(&meta);
    proof {
        lemma_hash_text_shape(secrets_content@);
        let h = meta@.secrets_hash;
        assert forall|i: int| 0 <= i < h.len() implies h[i] != '\n' by {
            assert(is_lower_hex(h[i]));
        }
        assert(is_lower_hex(h.last()));
        if fits_one_line(clock.date@) {
            lemma_meta_round_trip(meta@);
        }
        let ps = pair_views(resolved@);
        if forall|i: int| 0 <= i < resolved@.len() ==> reads_back(#[trigger] ps[i].0, ps[i].1) {
            lemma_cache_round_trip(ps);
        }
    }
    CacheFiles { cache_text, meta, meta_text }
}

/// A cache just written for the secrets file's bytes `secrets` is kept: its metadata reads
/// back as written, with the hash of those bytes, and at a time no more than `ttl` seconds
/// later on the same date it is not stale.
pub proof fn lemma_fresh_cache_kept(m: MetaSpec, secrets: Seq<u8>, now: i64, ttl: u64)
    requires
        fits_one_line(m.date),
        m.secrets_hash == hash_text(secrets),
        m.timestamp <= now,
        now - m.timestamp <= ttl,
    ensures
        read_meta_spec(meta_text_spec(m)) == Ok::<MetaSpec, MetaError>(m),
        read_meta_spec(meta_text_spec(m)) matches Ok(r) && r.secrets_hash == hash_text(secrets),
        !refresh_due(m, m.date, now, ttl),
{
    lemma_hash_text_shape(secrets);
    let h = m.secrets_hash;
    assert forall|i: int| 0 <= i < h.len() implies h[i] != '\n' by {
        assert(is_lower_hex(h[i]));
    }
    assert(is_lower_hex(h.last()));
    lemma_meta_round_trip(m);
    lemma_staleness(m, m.date, now, ttl);
}

} // verus!
