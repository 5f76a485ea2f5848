//! The secrets definition file: one `VAR_NAME|op://vault/item/field[|post_processor]`
//! per line, `#` comments and blank lines ignored; and the hash of its bytes that
//! tells when it changed.
use vstd::prelude::*;

use crate::number::{
    hex_digits, hex_value, is_lower_hex, lemma_hex_digits, lemma_hex_digits_value, push_hex16,
};
use crate::text::{
    chars_of, copy_range, crlf, find_char, find_from, find_in_range, lemma_crlf_concat,
    lemma_crlf_plain, lemma_find_from, lemma_find_from_skip, lemma_lines_concat, lemma_lines_cons, lemma_trim_strip_cr,
    lines, same_chars, split_lines, string_of, strip_cr, trim, trim_range, views,
};

verus! {

/// What is done to a resolved value before it is cached.
#[derive(Debug, Clone, Copy, PartialEq, Eq)]
pub enum PostProcessor {
    /// Removes every whitespace character.
    StripWhitespace,
}

/// A secret definition parsed from the secrets file.
#[derive(Debug, Clone)]
pub struct SecretDef {
    pub var_name: String,
    pub op_uri: String,
    pub post_processor: Option<PostProcessor>,
}

/// The mathematical content of a [`SecretDef`].
pub ghost struct SecretSpec {
    pub var_name: Seq<char>,
    pub op_uri: Seq<char>,
    pub post_processor: Option<PostProcessor>,
}

impl View for SecretDef {
    type V = SecretSpec;

    open spec fn view(&self) -> SecretSpec {
        SecretSpec {
            var_name: self.var_name@,
            op_uri: self.op_uri@,
            post_processor: self.post_processor,
        }
    }
}

/// Something in the secrets file that parsing passed over.
#[derive(Debug, Clone)]
pub enum SecretWarning {
    /// A line with no `|` in it (the line, trimmed).
    MalformedLine(String),
    /// A third field that names no post-processor; the secret is kept without one.
    UnknownPostProcessor { processor: String, var_name: String },
}

/// The mathematical content of a [`SecretWarning`].
pub ghost enum WarningSpec {
    MalformedLine(Seq<char>),
    UnknownPostProcessor { processor: Seq<char>, var_name: Seq<char> },
}

impl View for SecretWarning {
    type V = WarningSpec;

    open spec fn view(&self) -> WarningSpec {
        match self {
            SecretWarning::MalformedLine(l) => WarningSpec::MalformedLine(l@),
            SecretWarning::UnknownPostProcessor { processor, var_name } =>
                WarningSpec::UnknownPostProcessor { processor: processor@, var_name: var_name@ },
        }
    }
}

/// What one line of the secrets file holds.
#[derive(Debug, Clone)]
pub enum SecretLine {
    /// A blank line or a comment.
    Skip,
    /// A line with no `|` in it (the line, trimmed).
    Malformed(String),
    /// A definition, with the third field where it names no post-processor.
    Secret(SecretDef, Option<String>),
}

/// The mathematical content of a [`SecretLine`].
pub ghost enum LineSpec {
    Skip,
    Malformed(Seq<char>),
    Secret(SecretSpec, Option<Seq<char>>),
}

impl View for SecretLine {
    type V = LineSpec;

    open spec fn view(&self) -> LineSpec {
        match self {
            SecretLine::Skip => LineSpec::Skip,
            SecretLine::Malformed(l) => LineSpec::Malformed(l@),
            SecretLine::Secret(d, p) => LineSpec::Secret(
                d@,
                match p {
                    Some(s) => Some(s@),
                    None => None,
                },
            ),
        }
    }
}

/// The name of the one post-processor.
pub open spec fn strip_whitespace_name() -> Seq<char> {
    "strip_whitespace"@
}

/// What a line of the secrets file holds: the line is trimmed; a blank one or one that
/// starts with `#` is skipped; else it is split at its first two `|`, into the variable's
/// name, the secret's URI and, after a second `|`, the post-processor's name.
pub open spec fn secret_line(line: Seq<char>) -> LineSpec {
    let t = trim(line);
    if t.len() == 0 || t[0] == '#' {
        LineSpec::Skip
    } else {
        match find_char(t, '|', 0) {
            None => LineSpec::Malformed(t),
            Some(p1) => {
                let name = t.subrange(0, p1 as int);
                match find_char(t, '|', p1 + 1) {
                    None => LineSpec::Secret(
                        SecretSpec {
                            var_name: name,
                            op_uri: t.subrange(p1 + 1 as int, t.len() as int),
                            post_processor: None,
                        },
                        None,
                    ),
                    Some(p2) => {
                        let uri = t.subrange(p1 + 1 as int, p2 as int);
                        let pp = t.subrange(p2 + 1 as int, t.len() as int);
                        if pp == strip_whitespace_name() {
                            LineSpec::Secret(
                                SecretSpec {
                                    var_name: name,
                                    op_uri: uri,
                                    post_processor: Some(PostProcessor::StripWhitespace),
                                },
                                None,
                            )
                        } else {
                            LineSpec::Secret(
                                SecretSpec { var_name: name, op_uri: uri, post_processor: None },
                                Some(pp),
                            )
                        }
                    },
                }
            },
        }
    }
}

/// Whether `s` holds no `|`.
pub open spec fn no_bar(s: Seq<char>) -> bool {
    forall|i: int| 0 <= i < s.len() ==> s[i] != '|'
}

/// A definition line `NAME|URI`, trimmed, with no `|` in the name or the URI (and a name
/// that does not start with `#`), defines `NAME` as the whole of `URI`, spaces included,
/// with no post-processor.
pub proof fn lemma_secret_line_two_fields(line: Seq<char>, name: Seq<char>, uri: Seq<char>)
    requires
        trim(line) == name + seq!['|'] + uri,
        no_bar(name),
        no_bar(uri),
        !(name.len() > 0 && name[0] == '#'),
    ensures
        secret_line(line) == LineSpec::Secret(
            SecretSpec { var_name: name, op_uri: uri, post_processor: None },
            None,
        ),
{
    let t = trim(line);
    let n = name.len();
    assert(t[n as int] == '|');
    assert forall|m: int| 0 <= m < n implies t[m] != '|' by {
        assert(t[m] == name[m]);
    }
    lemma_find_from_skip(t, '|', 0, n);
    assert(find_from(t, '|', n) == n);
    assert forall|m: int| n + 1 <= m < t.len() implies t[m] != '|' by {
        assert(t[m] == uri[m - n - 1]);
    }
    lemma_find_from_skip(t, '|', n + 1, t.len());
    assert(find_from(t, '|', t.len()) == t.len());
    if n == 0 {
        assert(t[0] == '|');
    } else {
        assert(t[0] == name[0]);
    }
    assert(t.subrange(0, n as int) =~= name);
    assert(t.subrange(n + 1 as int, t.len() as int) =~= uri);
}

/// A definition line `NAME|URI|PP`, trimmed, with no `|` in the name or the URI (and a name
/// that does not start with `#`), defines `NAME` as the whole of `URI`, spaces included;
/// with the strip_whitespace post-processor where `PP` is its name, and else with none and
/// `PP` reported.
pub proof fn lemma_secret_line_three_fields(
    line: Seq<char>,
    name: Seq<char>,
    uri: Seq<char>,
    pp: Seq<char>,
)
    requires
        trim(line) == name + seq!['|'] + uri + seq!['|'] + pp,
        no_bar(name),
        no_bar(uri),
        !(name.len() > 0 && name[0] == '#'),
    ensures
        pp == strip_whitespace_name() ==> secret_line(line) == LineSpec::Secret(
            SecretSpec {
                var_name: name,
                op_uri: uri,
                post_processor: Some(PostProcessor::StripWhitespace),
            },
            None,
        ),
        pp != strip_whitespace_name() ==> secret_line(line) == LineSpec::Secret(
            SecretSpec { var_name: name, op_uri: uri, post_processor: None },
            Some(pp),
        ),
{
    let t = trim(line);
    let n = name.len();
    let e = n + 1 + uri.len();
    assert(t[n as int] == '|');
    assert(t[e as int] == '|');
    assert forall|m: int| 0 <= m < n implies t[m] != '|' by {
        assert(t[m] == name[m]);
    }
    lemma_find_from_skip(t, '|', 0, n);
    assert forall|m: int| n + 1 <= m < e implies t[m] != '|' by {
        assert(t[m] == uri[m - n - 1]);
    }
    lemma_find_from_skip(t, '|', n + 1, e);
    if n == 0 {
        assert(t[0] == '|');
    } else {
        assert(t[0] == name[0]);
    }
    assert(t.subrange(0, n as int) =~= name);
    assert(t.subrange(n + 1 as int, e as int) =~= uri);
    assert(t.subrange(e + 1 as int, t.len() as int) =~= pp);
}

/// A line that is blank or a comment once trimmed defines nothing and warns of nothing.
pub proof fn lemma_secret_line_skip(line: Seq<char>)
    requires
        trim(line).len() == 0 || trim(line)[0] == '#',
    ensures
        secret_line(line) == LineSpec::Skip,
{
}

/// A line that, trimmed, is neither blank nor a comment and holds no `|` is malformed,
/// reported trimmed.
pub proof fn lemma_secret_line_malformed(line: Seq<char>)
    requires
        trim(line).len() > 0,
        trim(line)[0] != '#',
        no_bar(trim(line)),
    ensures
        secret_line(line) == LineSpec::Malformed(trim(line)),
{
    let t = trim(line);
    lemma_find_from_skip(t, '|', 0, t.len());
    assert(find_from(t, '|', t.len()) == t.len());
}

/// The definitions that the lines `ls` hold, in order.
pub open spec fn secrets_of(ls: Seq<Seq<char>>) -> Seq<SecretSpec>
    decreases ls.len(),
{
    if ls.len() == 0 {
        seq![]
    } else {
        secrets_of(ls.drop_last()) + match secret_line(ls.last()) {
            LineSpec::Secret(d, _) => seq![d],
            _ => seq![],
        }
    }
}

/// The warnings that the lines `ls` give, in order.
pub open spec fn warnings_of(ls: Seq<Seq<char>>) -> Seq<WarningSpec>
    decreases ls.len(),
{
    if ls.len() == 0 {
        seq![]
    } else {
        warnings_of(ls.drop_last()) + match secret_line(ls.last()) {
            LineSpec::Malformed(t) => seq![WarningSpec::MalformedLine(t)],
            LineSpec::Secret(d, Some(p)) => seq![
                WarningSpec::UnknownPostProcessor { processor: p, var_name: d.var_name },
            ],
            _ => seq![],
        }
    }
}

/// The content of a sequence of definitions.
pub open spec fn secret_views(v: Seq<SecretDef>) -> Seq<SecretSpec> {
    v.map_values(|d: SecretDef| d@)
}

/// The content of a sequence of warnings.
pub open spec fn warning_views(v: Seq<SecretWarning>) -> Seq<WarningSpec> {
    v.map_values(|w: SecretWarning| w@)
}

/// Parses one line of the secrets file.
pub fn parse_secret_line(line: &Vec<char>) -> (r: SecretLine)
    ensures
        r@ == secret_line(line@),
{
    let (a, b): (usize, usize) = trim_range(line, 0, line.len());
    assert(line@.subrange(0, line.len() as int) == line@);
    let ghost t = line@.subrange(a as int, b as int);
    if a == b || line[a] == '#' {
        return SecretLine::Skip;
    }
    let p1: usize = find_in_range(line, '|', a, a, b);
    proof {
        lemma_find_from(t, '|', 0);
    }
    if p1 == b {
        return SecretLine::Malformed(string_of(&copy_range(line, a, b)));
    }
    let name = string_of(&copy_range(line, a, p1));
    assert(name@ == t.subrange(0, p1 - a));
    let p2: usize = find_in_range(line, '|', a, p1 + 1, b);
    proof {
        lemma_find_from(t, '|', (p1 + 1 - a) as nat);
    }
    if p2 == b {
        let uri = string_of(&copy_range(line, p1 + 1, b));
        assert(uri@ == t.subrange(p1 + 1 - a, t.len() as int));
        return SecretLine::Secret(
            SecretDef { var_name: name, op_uri: uri, post_processor: None },
            None,
        );
    }
    let uri = string_of(&copy_range(line, p1 + 1, p2));
    assert(uri@ == t.subrange(p1 + 1 - a, p2 - a));
    let word = chars_of("strip_whitespace");
    let pp = copy_range(line, p2 + 1, b);
    assert(pp@ == t.subrange(p2 + 1 - a, t.len() as int));
    if same_chars(&pp, &word) {
        SecretLine::Secret(
            SecretDef {
                var_name: name,
                op_uri: uri,
                post_processor: Some(PostProcessor::StripWhitespace),
            },
            None,
        )
    } else {
        SecretLine::Secret(
            SecretDef { var_name: name, op_uri: uri, post_processor: None },
            Some(string_of(&pp)),
        )
    }
}

/// What parsing the secrets file gives: the definitions, and what was passed over.
pub struct ParsedSecrets {
    pub secrets: Vec<SecretDef>,
    pub warnings: Vec<SecretWarning>,
}

/// Parses the text of the secrets file into its definitions, in file order, with a
/// warning for each malformed line and each unknown post-processor.
pub fn parse_secrets_file(content: &str) -> (r: ParsedSecrets)
    ensures
        secret_views(r.secrets@) == secrets_of(lines(content@)),
        warning_views(r.warnings@) == warnings_of(lines(content@)),
{
    let chars = chars_of(content);
    let ls = split_lines(&chars);
    let mut secrets: Vec<SecretDef> = Vec::new();
    let mut warnings: Vec<SecretWarning> = Vec::new();
    let mut i: usize = 0;
    assert(views(ls@).take(0) =~= Seq::<Seq<char>>::empty());
    while i < ls.len()
        invariant
            i <= ls.len(),
            views(ls@) == lines(content@),
            secret_views(secrets@) == secrets_of(views(ls@).take(i as int)),
            warning_views(warnings@) == warnings_of(views(ls@).take(i as int)),
        decreases ls.len() - i,
    {
        let ghost prefix = views(ls@).take(i as int);
        let ghost next = views(ls@).take(i + 1);
        assert(next.drop_last() == prefix);
        assert(next.last() == ls@[i as int]@);
        let ghost old_secrets = secrets@;
        let ghost old_warnings = warnings@;
        match parse_secret_line(&ls[i]) {
            SecretLine::Skip => {},
            SecretLine::Malformed(t) => {
                warnings.push(SecretWarning::MalformedLine(t));
            },
            SecretLine::Secret(d, unknown) => {
                match unknown {
                    Some(p) => {
                        let var_name = d.var_name.clone();
                        warnings.push(
                            SecretWarning::UnknownPostProcessor { processor: p, var_name },
                        );
                    },
                    None => {},
                }
                secrets.push(d);
            },
        }
        assert(secret_views(secrets@) =~= secret_views(old_secrets) + (secret_views(secrets@)
            .subrange(old_secrets.len() as int, secrets@.len() as int)));
        assert(warning_views(warnings@) =~= warning_views(old_warnings) + (warning_views(
            warnings@,
        ).subrange(old_warnings.len() as int, warnings@.len() as int)));
        i = i + 1;
    }
    assert(views(ls@).take(ls.len() as int) == views(ls@));
    ParsedSecrets { secrets, warnings }
}

/// The number of bytes plus each byte weighted by its position counted from 1.
pub open spec fn weighted_sum(b: Seq<u8>) -> nat
    decreases b.len(),
{
    if b.len() == 0 {
        0
    } else {
        weighted_sum(b.drop_last()) + (b.last() as nat) * b.len()
    }
}

/// The change-detection hash of the secrets file's bytes: its length plus each byte
/// times its position counted from 1, modulo 2^64.
pub open spec fn hash_value(b: Seq<u8>) -> nat {
    (b.len() + weighted_sum(b)) % 0x1_0000_0000_0000_0000
}

/// The hash as 16 lower-case hexadecimal digits.
pub open spec fn hash_text(b: Seq<u8>) -> Seq<char> {
    hex_digits(hash_value(b), 16)
}

/// Hashes the bytes of the secrets file for change detection (not cryptographic).
pub fn hash_secrets_file(content: &[u8]) -> (r: String)
    ensures
        r@ == hash_text(content@),
{
    let n: usize = content.len();
    let mut hash: u64 = n as u64;
    let mut i: usize = 0;
    assert(content@.take(0) =~= Seq::<u8>::empty());
    assert(hash == (n + weighted_sum(content@.take(0))) % 0x1_0000_0000_0000_0000) by {
        vstd::arithmetic::div_mod::lemma_small_mod(n as nat, 0x1_0000_0000_0000_0000);
    }
    while i < n
        invariant
            n == content@.len(),
            i <= n,
            hash == (n + weighted_sum(content@.take(i as int))) % 0x1_0000_0000_0000_0000,
        decreases n - i,
    {
        let ghost prev = hash;
        let term: u64 = (content[i] as u64).wrapping_mul(i as u64 + 1);
        hash = hash.wrapping_add(term);
        let ghost m: int = 0x1_0000_0000_0000_0000;
        let ghost w = weighted_sum(content@.take(i as int));
        let ghost x = content@[i as int] * (i + 1);
        assert(content@.take(i + 1).drop_last() == content@.take(i as int));
        assert(weighted_sum(content@.take(i + 1)) == w + x);
        assert(term == x % m);
        assert(hash == (prev + term) % m);
        assert(((n + w) % m + x % m) % m == (n + w + x) % m) by {
            vstd::arithmetic::div_mod::lemma_add_mod_noop(n + w, x, m);
        }
        i = i + 1;
    }
    assert(content@.take(n as int) == content@);
    let mut out: Vec<char> = Vec::new();
    push_hex16(&mut out, hash);
    string_of(&out)
}

/// The hash of any content is 16 lower-case hexadecimal digits.
pub proof fn lemma_hash_text_shape(b: Seq<u8>)
    ensures
        hash_text(b).len() == 16,
        forall|i: int| 0 <= i < 16 ==> is_lower_hex(#[trigger] hash_text(b)[i]),
{
    lemma_hex_digits(hash_value(b), 16);
}

/// The definitions and warnings of consecutive lines are those of each part, in turn.
pub proof fn lemma_parse_lines_concat(a: Seq<Seq<char>>, b: Seq<Seq<char>>)
    ensures
        secrets_of(a + b) == secrets_of(a) + secrets_of(b),
        warnings_of(a + b) == warnings_of(a) + warnings_of(b),
    decreases b.len(),
{
    if b.len() == 0 {
        assert(a + b == a);
        assert(secrets_of(a) + secrets_of(b) == secrets_of(a));
        assert(warnings_of(a) + warnings_of(b) == warnings_of(a));
    } else {
        assert((a + b).drop_last() == a + b.drop_last());
        assert((a + b).last() == b.last());
        lemma_parse_lines_concat(a, b.drop_last());
    }
}

/// A line gives the same with or without a `\r` before its line break.
pub proof fn lemma_secret_line_strip_cr(l: Seq<char>)
    ensures
        secret_line(strip_cr(l)) == secret_line(l),
{
    lemma_trim_strip_cr(l);
}

/// Two secrets files joined, the first empty or ending in a line break, give the
/// definitions and warnings of the first followed by those of the second.
pub proof fn lemma_parse_concat(c1: Seq<char>, c2: Seq<char>)
    requires
        c1.len() == 0 || c1.last() == '\n',
    ensures
        secrets_of(lines(c1 + c2)) == secrets_of(lines(c1)) + secrets_of(lines(c2)),
        warnings_of(lines(c1 + c2)) == warnings_of(lines(c1)) + warnings_of(lines(c2)),
{
    lemma_lines_concat(c1, c2);
    lemma_parse_lines_concat(lines(c1), lines(c2));
}

/// A blank line or a comment, put in at the start of a line, changes neither the definitions
/// nor the warnings.
pub proof fn lemma_parse_insert_skipped_line(p: Seq<char>, l: Seq<char>, s: Seq<char>)
    requires
        p.len() == 0 || p.last() == '\n',
        forall|i: int| 0 <= i < l.len() ==> l[i] != '\n',
        trim(l).len() == 0 || trim(l)[0] == '#',
    ensures
        secrets_of(lines(p + (l + seq!['\n'] + s))) == secrets_of(lines(p + s)),
        warnings_of(lines(p + (l + seq!['\n'] + s))) == warnings_of(lines(p + s)),
{
    lemma_parse_concat(p, l + seq!['\n'] + s);
    lemma_parse_concat(p, s);
    lemma_lines_cons(l, s);
    lemma_secret_line_strip_cr(l);
    let one = seq![strip_cr(l)];
    assert(secret_line(strip_cr(l)) == LineSpec::Skip);
    lemma_parse_lines_concat(one, lines(s));
    assert(one.drop_last() =~= Seq::<Seq<char>>::empty());
    assert(one.last() == strip_cr(l));
    assert(secrets_of(Seq::<Seq<char>>::empty()) == Seq::<SecretSpec>::empty());
    assert(warnings_of(Seq::<Seq<char>>::empty()) == Seq::<WarningSpec>::empty());
    assert(secrets_of(one) == Seq::<SecretSpec>::empty());
    assert(warnings_of(one) == Seq::<WarningSpec>::empty());
    assert(secrets_of(one) + secrets_of(lines(s)) == secrets_of(lines(s)));
    assert(warnings_of(one) + warnings_of(lines(s)) == warnings_of(lines(s)));
}

/// A secrets file with `\r\n` line breaks gives the same definitions and warnings as with
/// `\n` ones.
pub proof fn lemma_parse_crlf(c: Seq<char>)
    ensures
        secrets_of(lines(crlf(c))) == secrets_of(lines(c)),
        warnings_of(lines(crlf(c))) == warnings_of(lines(c)),
    decreases c.len(),
{
    lemma_find_from(c, '\n', 0);
    let e = find_from(c, '\n', 0);
    if e == c.len() {
        assert forall|i: int| 0 <= i < c.len() implies c[i] != '\n' by {}
        lemma_crlf_plain(c);
    } else {
        let x = c.subrange(0, e as int);
        let y = c.subrange(e + 1 as int, c.len() as int);
        assert(c == x + seq!['\n'] + y);
        assert forall|i: int| 0 <= i < x.len() implies x[i] != '\n' by {
            assert(x[i] == c[i]);
        }
        lemma_crlf_concat(x + seq!['\n'], y);
        lemma_crlf_concat(x, seq!['\n']);
        lemma_crlf_plain(x);
        assert(seq!['\n'].drop_first() =~= Seq::<char>::empty());
        assert(crlf(Seq::<char>::empty()) == Seq::<char>::empty());
        assert(seq!['\n'][0] == '\n');
        assert(crlf(seq!['\n']) == seq!['\r', '\n'] + crlf(Seq::<char>::empty()));
        assert(crlf(seq!['\n']) == seq!['\r', '\n']);
        let xr = x.push('\r');
        assert(crlf(c) == xr + seq!['\n'] + crlf(y));
        assert forall|i: int| 0 <= i < xr.len() implies xr[i] != '\n' by {
            if i < x.len() {
                assert(xr[i] == x[i]);
            }
        }
        lemma_lines_cons(xr, crlf(y));
        lemma_lines_cons(x, y);
        assert(xr.drop_last() == x);
        assert(strip_cr(xr) == x);
        lemma_secret_line_strip_cr(x);
        lemma_parse_crlf(y);
        lemma_parse_lines_concat(seq![x], lines(crlf(y)));
        lemma_parse_lines_concat(seq![strip_cr(x)], lines(y));
        assert(seq![x].drop_last() =~= Seq::<Seq<char>>::empty());
        assert(seq![strip_cr(x)].drop_last() =~= Seq::<Seq<char>>::empty());
        assert(seq![x].last() == x);
        assert(seq![strip_cr(x)].last() == strip_cr(x));
        assert(secrets_of(seq![x]) == secrets_of(seq![strip_cr(x)]));
        assert(warnings_of(seq![x]) == warnings_of(seq![strip_cr(x)]));
    }
}

/// Appending the byte `x` to the content adds `1 + x * (n + 1)` to its hash, modulo 2^64,
/// where `n` is the content's length before.
pub proof fn lemma_hash_append(c: Seq<u8>, x: u8)
    ensures
        hash_value(c.push(x)) == (hash_value(c) + 1 + x * (c.len() + 1)) % 0x1_0000_0000_0000_0000,
{
    let m: int = 0x1_0000_0000_0000_0000;
    let a: int = (c.len() + weighted_sum(c)) as int;
    let b: int = 1 + x * (c.len() + 1);
    assert(c.push(x).drop_last() == c);
    assert(weighted_sum(c.push(x)) == weighted_sum(c) + x * (c.len() + 1));
    vstd::arithmetic::div_mod::lemma_add_mod_noop(a, b, m);
    vstd::arithmetic::div_mod::lemma_add_mod_noop(a % m, b, m);
    vstd::arithmetic::div_mod::lemma_mod_twice(a, m);
    assert((a % m + b) % m == (a + b) % m);
}

/// The hash text, read as a hexadecimal number, is the hash value: 16 digits, most
/// significant first, with leading zeros.
pub proof fn lemma_hash_text_value(b: Seq<u8>)
    ensures
        hex_value(hash_text(b)) == hash_value(b),
{
    lemma_hex_digits_value(hash_value(b), 16);
    reveal_with_fuel(vstd::arithmetic::power::pow, 17);
    assert(vstd::arithmetic::power::pow(16, 16) == 0x1_0000_0000_0000_0000);
}

/// The empty file hashes to 0.
pub proof fn lemma_hash_empty()
    ensures
        hash_value(Seq::<u8>::empty()) == 0,
{
    assert(weighted_sum(Seq::<u8>::empty()) == 0);
}

} // verus!
