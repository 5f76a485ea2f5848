//! What envcache prints: the resolved secrets as shell `export` lines, as a `.env`
//! file, or as a JSON object.
use vstd::prelude::*;

use crate::cache::{cache_text, cache_text_spec};
use crate::number::hex_char;
use crate::text::{pair_views, push_str, string_of};
use serde_json::Error;
use std::collections::HashMap;

verus! {

/// The format in which the resolved secrets are printed.
#[derive(Debug, Clone, Copy, PartialEq, Eq)]
pub enum OutputFormat {
    /// `export VAR='value'` lines, for bash or zsh to evaluate.
    Export,
    /// `VAR=value` lines, the `.env` file format.
    Dotenv,
    /// A JSON object.
    Json,
}

/// Why the output could not be written.
#[derive(Debug, Clone)]
pub enum OutputError {
    /// The JSON serialiser failed (its message).
    Json(String),
}

#[verifier::external_type_specification]
#[verifier::external_body]
pub struct ExJsonError(serde_json::Error);

/// How serde_json writes one character inside a JSON string: `"` and `\\` behind a
/// backslash; backspace, tab, line feed, form feed and carriage return as `\b`, `\t`, `\n`,
/// `\f`, `\r`; the other characters below U+0020 as `\u00` and two lower-case hexadecimal
/// digits; every other character as it is.
pub open spec fn json_char(c: char) -> Seq<char> {
    let u = c as u32;
    if c == '"' {
        seq!['\\', '"']
    } else if c == '\\' {
        seq!['\\', '\\']
    } else if u == 8 {
        seq!['\\', 'b']
    } else if u == 9 {
        seq!['\\', 't']
    } else if u == 10 {
        seq!['\\', 'n']
    } else if u == 12 {
        seq!['\\', 'f']
    } else if u == 13 {
        seq!['\\', 'r']
    } else if u < 32 {
        seq!['\\', 'u', '0', '0', hex_char((u / 16) as nat), hex_char((u % 16) as nat)]
    } else {
        seq![c]
    }
}

/// A JSON string: the characters escaped as `json_char` does, inside double quotes.
pub open spec fn json_string(s: Seq<char>) -> Seq<char> {
    seq!['"'] + json_escaped(s) + seq!['"']
}

/// The characters of `s`, each escaped as `json_char` does.
pub open spec fn json_escaped(s: Seq<char>) -> Seq<char>
    decreases s.len(),
{
    if s.len() == 0 {
        seq![]
    } else {
        json_char(s[0]) + json_escaped(s.drop_first())
    }
}

/// One member of a pretty-printed JSON object: indented by two spaces, `"name": "value"`.
pub open spec fn json_member(k: Seq<char>, v: Seq<char>) -> Seq<char> {
    seq![' ', ' '] + json_string(k) + seq![':', ' '] + json_string(v)
}

/// The members of a pretty-printed JSON object, one per line, separated by `,`.
pub open spec fn json_members(ps: Seq<(Seq<char>, Seq<char>)>) -> Seq<char>
    decreases ps.len(),
{
    if ps.len() == 0 {
        seq![]
    } else if ps.len() == 1 {
        json_member(ps[0].0, ps[0].1)
    } else {
        json_member(ps[0].0, ps[0].1) + seq![',', '\n'] + json_members(ps.drop_first())
    }
}

/// A pretty-printed JSON object with the members `ps` in that order: `{}` where there are
/// none, else `{`, a line per member and `}` on a line of its own.
pub open spec fn json_object_text(ps: Seq<(Seq<char>, Seq<char>)>) -> Seq<char> {
    if ps.len() == 0 {
        seq!['{', '}']
    } else {
        seq!['{', '\n'] + json_members(ps) + seq!['\n', '}']
    }
}

/// Whether `s` is the pretty-printed JSON object of the pairs `ps` in some order.
pub open spec fn is_json_object_of(s: Seq<char>, ps: Seq<(Seq<char>, Seq<char>)>) -> bool {
    exists|q: Seq<(Seq<char>, Seq<char>)>|
        q.to_multiset() == ps.to_multiset() && s == #[trigger] json_object_text(q)
}

/// Escaping two texts joined for JSON is escaping each and joining them.
pub proof fn lemma_json_escaped_concat(a: Seq<char>, b: Seq<char>)
    ensures
        json_escaped(a + b) == json_escaped(a) + json_escaped(b),
    decreases a.len(),
{
    if a.len() == 0 {
        assert(a + b =~= b);
        assert(json_escaped(a) + json_escaped(b) =~= json_escaped(b));
    } else {
        lemma_json_escaped_concat(a.drop_first(), b);
        assert((a + b)[0] == a[0]);
        assert((a + b).drop_first() =~= a.drop_first() + b);
        let h = json_char(a[0]);
        assert(h + (json_escaped(a.drop_first()) + json_escaped(b)) =~= (h + json_escaped(
            a.drop_first(),
        )) + json_escaped(b));
    }
}

/// A single character is escaped for JSON as `json_char` writes it; one from U+0020 up
/// other than `"` and `\` is written as it is.
pub proof fn lemma_json_escaped_char(c: char)
    ensures
        json_escaped(seq![c]) == json_char(c),
        c as u32 >= 32 && c != '"' && c != '\\' ==> json_escaped(seq![c]) == seq![c],
{
    assert(seq![c].drop_first() =~= Seq::<char>::empty());
    assert(json_escaped(Seq::<char>::empty()) == Seq::<char>::empty());
    assert(json_char(c) + Seq::<char>::empty() =~= json_char(c));
}

/// The members of two non-empty runs of pairs are those of the first, `,` and a newline,
/// and those of the second.
pub proof fn lemma_json_members_concat(a: Seq<(Seq<char>, Seq<char>)>, b: Seq<(Seq<char>, Seq<char>)>)
    requires
        a.len() > 0,
        b.len() > 0,
    ensures
        json_members(a + b) == json_members(a) + seq![',', '\n'] + json_members(b),
    decreases a.len(),
{
    assert((a + b)[0] == a[0]);
    assert((a + b).drop_first() =~= a.drop_first() + b);
    let h = json_member(a[0].0, a[0].1);
    if a.len() == 1 {
        assert(a.drop_first() + b =~= b);
    } else {
        lemma_json_members_concat(a.drop_first(), b);
        assert(h + seq![',', '\n'] + (json_members(a.drop_first()) + seq![',', '\n'] + json_members(b))
            =~= (h + seq![',', '\n'] + json_members(a.drop_first())) + seq![',', '\n'] + json_members(b));
    }
}

/// The object of one pair: `{`, a newline, two spaces, the quoted escaped name, `: `, the
/// quoted escaped value, a newline and `}`.
pub proof fn lemma_json_object_one(k: Seq<char>, v: Seq<char>)
    ensures
        json_object_text(seq![(k, v)]) == seq!['{', '\n', ' ', ' ', '"'] + json_escaped(k) + seq![
            '"',
            ':',
            ' ',
            '"',
        ] + json_escaped(v) + seq!['"', '\n', '}'],
{
    assert(json_object_text(seq![(k, v)]) =~= seq!['{', '\n', ' ', ' ', '"'] + json_escaped(k) + seq![
        '"',
        ':',
        ' ',
        '"',
    ] + json_escaped(v) + seq!['"', '\n', '}']);
}

/// Serialises the pairs as a JSON object with `serde_json::to_string_pretty`, through a
/// `HashMap<&str, &str>` that holds them (one entry per pair where the names are distinct,
/// as `pairs_map` gives them). serde_json's source serialises a map with string keys into a
/// byte vector without fail, writing `{}` for an empty map and otherwise each entry as
/// `json_member` does, in the map's iteration order; that order is seeded at random in
/// each process, so the members' order is not stated.
#[verifier::external_body]
fn json_object_pretty(pairs: &[(String, String)]) -> (r: Result<String, Error>)
    ensures
        r is Ok,
        r matches Ok(s) ==> (distinct_names(pair_views(pairs@)) ==> is_json_object_of(s@, pair_views(pairs@))),
{
    let map: HashMap<&str, &str> = pairs.iter().map(|p| (p.0.as_str(), p.1.as_str())).collect();
    serde_json::to_string_pretty(&map)
}

/// The index of the last pair named `k` in `ps`, or `-1` where there is none.
pub open spec fn name_index(ps: Seq<(Seq<char>, Seq<char>)>, k: Seq<char>) -> int
    decreases ps.len(),
{
    if ps.len() == 0 {
        -1
    } else if ps.last().0 == k {
        ps.len() - 1
    } else {
        name_index(ps.drop_last(), k)
    }
}

/// `ps` with the value of the pair named `k` set to `v`, or `(k, v)` added at the end
/// where no pair is named `k`.
pub open spec fn set_name(ps: Seq<(Seq<char>, Seq<char>)>, k: Seq<char>, v: Seq<char>) -> Seq<
    (Seq<char>, Seq<char>),
> {
    let i = name_index(ps, k);
    if i >= 0 {
        ps.update(i, (k, v))
    } else {
        ps.push((k, v))
    }
}

/// The map from name to value that the pairs give, as pairs in the order in which the
/// names first occur: where a name occurs twice, the later value stays.
pub open spec fn name_map(ps: Seq<(Seq<char>, Seq<char>)>) -> Seq<(Seq<char>, Seq<char>)>
    decreases ps.len(),
{
    if ps.len() == 0 {
        seq![]
    } else {
        set_name(name_map(ps.drop_last()), ps.last().0, ps.last().1)
    }
}

/// Whether no two pairs have the same name.
pub open spec fn distinct_names(ps: Seq<(Seq<char>, Seq<char>)>) -> bool {
    forall|i: int, j: int| 0 <= i < j < ps.len() ==> ps[i].0 != ps[j].0
}

/// `name_index` finds a pair named `k` where there is one, and `-1` only where there is none.
proof fn lemma_name_index(ps: Seq<(Seq<char>, Seq<char>)>, k: Seq<char>)
    ensures
        -1 <= name_index(ps, k) < ps.len(),
        name_index(ps, k) >= 0 ==> ps[name_index(ps, k)].0 == k,
        name_index(ps, k) == -1 ==> forall|i: int| 0 <= i < ps.len() ==> ps[i].0 != k,
    decreases ps.len(),
{
    if ps.len() > 0 && ps.last().0 != k {
        lemma_name_index(ps.drop_last(), k);
        if name_index(ps, k) == -1 {
            assert forall|i: int| 0 <= i < ps.len() implies ps[i].0 != k by {
                if i < ps.len() - 1 {
                    assert(ps[i] == ps.drop_last()[i]);
                }
            }
        }
    }
}

/// The map's pairs have distinct names.
proof fn lemma_name_map_distinct(ps: Seq<(Seq<char>, Seq<char>)>)
    ensures
        distinct_names(name_map(ps)),
    decreases ps.len(),
{
    if ps.len() > 0 {
        let m = name_map(ps.drop_last());
        let (k, v) = ps.last();
        lemma_name_map_distinct(ps.drop_last());
        lemma_name_index(m, k);
        let r = set_name(m, k, v);
        assert forall|i: int, j: int| 0 <= i < j < r.len() implies r[i].0 != r[j].0 by {
            if name_index(m, k) < 0 && j == m.len() {
                assert(m[i].0 != k);
            }
        }
    }
}

/// Whether the pair at `i` is the last pair of its name in `ps`.
pub open spec fn is_last_of_name(ps: Seq<(Seq<char>, Seq<char>)>, i: int) -> bool {
    &&& 0 <= i < ps.len()
    &&& forall|j: int| i < j < ps.len() ==> ps[j].0 != ps[i].0
}

/// The map from name to value holds the last pair of each name, and nothing else: every
/// pair that is the last of its name is in it, and every entry in it is such a pair.
pub proof fn lemma_name_map_last_values(ps: Seq<(Seq<char>, Seq<char>)>)
    ensures
        forall|i: int|
            is_last_of_name(ps, i) ==> #[trigger] name_map(ps).contains(ps[i]),
        forall|j: int|
            0 <= j < name_map(ps).len() ==> exists|i: int|
                is_last_of_name(ps, i) && ps[i] == #[trigger] name_map(ps)[j],
    decreases ps.len(),
{
    if ps.len() > 0 {
        let pre = ps.drop_last();
        let m = name_map(pre);
        let (k, v) = ps.last();
        let n = ps.len() - 1;
        lemma_name_map_last_values(pre);
        lemma_name_map_distinct(pre);
        lemma_name_index(m, k);
        let idx = name_index(m, k);
        let r = name_map(ps);
        assert(r == set_name(m, k, v));
        assert(ps[n] == (k, v));
        assert forall|i: int| is_last_of_name(ps, i) implies #[trigger] r.contains(ps[i]) by {
            if i == n {
                if idx >= 0 {
                    assert(r[idx] == (k, v));
                } else {
                    assert(r[m.len() as int] == (k, v));
                }
            } else {
                assert(ps[i] == pre[i]);
                assert forall|j: int| i < j < pre.len() implies pre[j].0 != pre[i].0 by {
                    assert(pre[j] == ps[j]);
                }
                assert(is_last_of_name(pre, i));
                assert(m.contains(pre[i]));
                let j = choose|j: int| 0 <= j < m.len() && m[j] == pre[i];
                assert(ps[i].0 != k);
                if idx >= 0 {
                    assert(j != idx);
                    assert(r[j] == m[j]);
                } else {
                    assert(r[j] == m[j]);
                }
            }
        }
        assert forall|j: int| 0 <= j < r.len() implies exists|i: int|
            is_last_of_name(ps, i) && ps[i] == #[trigger] r[j] by {
            assert(is_last_of_name(ps, n));
            if idx >= 0 && j == idx {
                assert(ps[n] == r[j]);
            } else if idx < 0 && j == m.len() {
                assert(ps[n] == r[j]);
            } else {
                assert(r[j] == m[j]);
                assert(m[j].0 != k) by {
                    if idx >= 0 {
                        assert(m[idx].0 == k);
                    }
                }
                let i = choose|i: int| is_last_of_name(pre, i) && pre[i] == #[trigger] m[j];
                assert(ps[i] == pre[i]);
                assert forall|j2: int| i < j2 < ps.len() implies ps[j2].0 != ps[i].0 by {
                    if j2 < n {
                        assert(ps[j2] == pre[j2]);
                    }
                }
                assert(is_last_of_name(ps, i));
            }
        }
    }
}

/// The resolved pairs as a map from name to value: one pair per name, in the order in
/// which the names first occur, with the value of the last pair of that name.
fn pairs_map(resolved: &[(String, String)]) -> (r: Vec<(String, String)>)
    ensures
        pair_views(r@) == name_map(pair_views(resolved@)),
        distinct_names(pair_views(r@)),
{
    let ghost ps = pair_views(resolved@);
    let mut r: Vec<(String, String)> = Vec::new();
    let mut i: usize = 0;
    assert(ps.take(0) =~= Seq::<(Seq<char>, Seq<char>)>::empty());
    assert(pair_views(r@) =~= Seq::<(Seq<char>, Seq<char>)>::empty());
    while i < resolved.len()
        invariant
            i <= resolved@.len(),
            ps == pair_views(resolved@),
            pair_views(r@) == name_map(ps.take(i as int)),
        decreases resolved@.len() - i,
    {
        let ghost cur = pair_views(r@);
        let ghost k = resolved@[i as int].0@;
        let ghost v = resolved@[i as int].1@;
        assert(ps.take(i + 1).drop_last() == ps.take(i as int));
        assert(ps.take(i + 1).last() == (k, v));
        let mut j: usize = r.len();
        assert(cur.take(j as int) == cur);
        while j > 0 && !(r[j - 1].0 == resolved[i].0)
            invariant
                j <= r@.len(),
                cur == pair_views(r@),
                k == resolved@[i as int].0@,
                i < resolved@.len(),
                name_index(cur, k) == name_index(cur.take(j as int), k),
            decreases j,
        {
            assert(cur.take(j as int).last() == cur[j - 1]);
            assert(cur.take(j as int).drop_last() == cur.take(j - 1));
            j = j - 1;
        }
        let pair = (resolved[i].0.clone(), resolved[i].1.clone());
        if j > 0 {
            assert(cur.take(j as int).last() == cur[j - 1]);
            assert(name_index(cur, k) == j - 1);
            r.set(j - 1, pair);
            assert(pair_views(r@) =~= cur.update(j - 1, (k, v)));
        } else {
            assert(cur.take(0) =~= Seq::<(Seq<char>, Seq<char>)>::empty());
            r.push(pair);
            assert(pair_views(r@) =~= cur.push((k, v)));
        }
        i = i + 1;
    }
    assert(ps.take(i as int) == ps);
    proof {
        lemma_name_map_distinct(ps);
    }
    r
}

/// The message of a `serde_json::Error` (its `Display`, through `ToString::to_string`).
/// Nothing is stated of the text.
#[verifier::external_body]
fn json_error_message(e: &serde_json::Error) -> String {
    e.to_string()
}

/// The `.env` text: a `NAME=value` line per pair, in order, with nothing escaped.
pub open spec fn dotenv_text(ps: Seq<(Seq<char>, Seq<char>)>) -> Seq<char>
    decreases ps.len(),
{
    if ps.len() == 0 {
        seq![]
    } else {
        ps[0].0 + seq!['='] + ps[0].1 + seq!['\n'] + dotenv_text(ps.drop_first())
    }
}

/// The `.env` text of two runs of pairs is the text of the first followed by that of the
/// second.
pub proof fn lemma_dotenv_concat(a: Seq<(Seq<char>, Seq<char>)>, b: Seq<(Seq<char>, Seq<char>)>)
    ensures
        dotenv_text(a + b) == dotenv_text(a) + dotenv_text(b),
    decreases a.len(),
{
    if a.len() == 0 {
        assert(a + b =~= b);
        assert(dotenv_text(a) + dotenv_text(b) =~= dotenv_text(b));
    } else {
        lemma_dotenv_concat(a.drop_first(), b);
        assert((a + b)[0] == a[0]);
        assert((a + b).drop_first() =~= a.drop_first() + b);
        let h = a[0].0 + seq!['='] + a[0].1 + seq!['\n'];
        assert(h + (dotenv_text(a.drop_first()) + dotenv_text(b)) =~= (h + dotenv_text(
            a.drop_first(),
        )) + dotenv_text(b));
    }
}

/// One pair gives its `.env` line: the name, `=`, the value exactly as it is, and a newline.
pub proof fn lemma_dotenv_one(k: Seq<char>, v: Seq<char>)
    ensures
        dotenv_text(seq![(k, v)]) == k + seq!['='] + v + seq!['\n'],
{
    assert(seq![(k, v)].drop_first() =~= Seq::<(Seq<char>, Seq<char>)>::empty());
    assert(dotenv_text(Seq::<(Seq<char>, Seq<char>)>::empty()) == Seq::<char>::empty());
    assert(k + seq!['='] + v + seq!['\n'] + Seq::<char>::empty() =~= k + seq!['='] + v + seq![
        '\n',
    ]);
}

fn dotenv(resolved: &[(String, String)]) -> (r: String)
    ensures
        r@ == dotenv_text(pair_views(resolved@)),
{
    let mut out: Vec<char> = Vec::new();
    let ghost ps = pair_views(resolved@);
    let mut i: usize = 0;
    assert(ps.skip(0) == ps);
    while i < resolved.len()
        invariant
            i <= resolved@.len(),
            ps == pair_views(resolved@),
            dotenv_text(ps) == out@ + dotenv_text(ps.skip(i as int)),
        decreases resolved@.len() - i,
    {
        let ghost rest = ps.skip(i as int);
        assert(rest.drop_first() == ps.skip(i + 1));
        assert(rest[0] == (resolved@[i as int].0@, resolved@[i as int].1@));
        push_str(&mut out, resolved[i].0.as_str());
        out.push('=');
        push_str(&mut out, resolved[i].1.as_str());
        out.push('\n');
        i = i + 1;
    }
    assert(ps.skip(i as int) =~= Seq::<(Seq<char>, Seq<char>)>::empty());
    string_of(&out)
}

/// The text to print for the resolved pairs in the format `format`. The `export` text is
/// exactly the cache file's text; the `.env` text has a `NAME=value` line per pair; the JSON
/// text is the pretty-printed object of the names and their last values (`name_map`), in
/// some order, with a newline after it.
pub fn render_output(format: OutputFormat, resolved: &[(String, String)]) -> (r: Result<
    String,
    OutputError,
>)
    ensures
        format == OutputFormat::Export ==> (r matches Ok(s) && s@ == cache_text_spec(
            pair_views(resolved@),
        )),
        format == OutputFormat::Dotenv ==> (r matches Ok(s) && s@ == dotenv_text(
            pair_views(resolved@),
        )),
        format == OutputFormat::Json ==> (r matches Ok(s) && s@.len() > 0 && s@.last() == '\n'
            && is_json_object_of(s@.drop_last(), name_map(pair_views(resolved@)))),
{
    match format {
        OutputFormat::Export => Ok(cache_text(resolved)),
        OutputFormat::Dotenv => Ok(dotenv(resolved)),
        OutputFormat::Json => {
            let pairs = pairs_map(resolved);
            match json_object_pretty(pairs.as_slice()) {
                Ok(text) => {
                    let mut out: Vec<char> = Vec::new();
                    push_str(&mut out, text.as_str());
                    out.push('\n');
                    assert(out@.drop_last() == text@);
                    Ok(string_of(&out))
                },
                Err(e) => Err(OutputError::Json(json_error_message(&e))),
            }
        },
    }
}

} // verus!
