//! What becomes of the values that the secret manager returns: the trailing
//! newlines of its output are dropped and the secret's post-processor applied.
use vstd::prelude::*;

use crate::secrets::{secret_views, PostProcessor, SecretDef, SecretSpec};
use crate::text::{
    chars_of, is_whitespace, is_ws, lemma_strip_end_shape, pair_views, strip_end, string_of,
};

verus! {

/// `s` with every whitespace character removed.
pub open spec fn without_ws(s: Seq<char>) -> Seq<char>
    decreases s.len(),
{
    if s.len() == 0 {
        seq![]
    } else {
        without_ws(s.drop_last()) + if is_ws(s.last()) {
            seq![]
        } else {
            seq![s.last()]
        }
    }
}

/// A resolved value after the post-processor, where there is one.
pub open spec fn post_processed(value: Seq<char>, processor: Option<PostProcessor>) -> Seq<char> {
    match processor {
        Some(PostProcessor::StripWhitespace) => without_ws(value),
        None => value,
    }
}

/// Applies a post-processor to a resolved value.
pub fn apply_post_processor(value: &str, processor: &PostProcessor) -> (r: String)
    ensures
        r@ == post_processed(value@, Some(*processor)),
{
    match processor {
        PostProcessor::StripWhitespace => {
            let cs = chars_of(value);
            let mut out: Vec<char> = Vec::new();
            let mut i: usize = 0;
            while i < cs.len()
                invariant
                    i <= cs.len(),
                    cs@ == value@,
                    out@ == without_ws(cs@.take(i as int)),
                decreases cs.len() - i,
            {
                assert(cs@.take(i + 1).drop_last() == cs@.take(i as int));
                if !is_whitespace(cs[i]) {
                    out.push(cs[i]);
                }
                i = i + 1;
            }
            assert(cs@.take(cs.len() as int) == cs@);
            string_of(&out)
        },
    }
}

/// The value that the secret manager's output gives: the output without its trailing
/// newlines.
pub fn op_output_value(stdout: &str) -> (r: String)
    ensures
        r@ == strip_end(stdout@, '\n'),
{
    let cs = chars_of(stdout);
    assert(cs@.subrange(0, cs.len() as int) == cs@);
    let mut end: usize = cs.len();
    while end > 0 && cs[end - 1] == '\n'
        invariant
            end <= cs.len(),
            strip_end(cs@, '\n') == strip_end(cs@.subrange(0, end as int), '\n'),
        decreases end,
    {
        assert(cs@.subrange(0, end as int).drop_last() == cs@.subrange(0, end - 1));
        end = end - 1;
    }
    let mut out: Vec<char> = Vec::new();
    crate::text::push_range(&mut out, &cs, 0, end);
    assert(out@ == cs@.subrange(0, end as int));
    string_of(&out)
}

/// The `(name, value)` pairs that the secrets give, in order: a secret whose lookup
/// failed (`None`) is left out; another gives its name and its looked-up output without
/// the trailing newlines, post-processed.
pub open spec fn resolved_pairs(defs: Seq<SecretSpec>, outputs: Seq<Option<Seq<char>>>) -> Seq<
    (Seq<char>, Seq<char>),
>
    decreases defs.len(),
{
    if defs.len() == 0 || outputs.len() == 0 {
        seq![]
    } else {
        resolved_pairs(defs.drop_last(), outputs.drop_last()) + match outputs.last() {
            Some(out) => seq![
                (defs.last().var_name, post_processed(strip_end(out, '\n'), defs.last().post_processor)),
            ],
            None => seq![],
        }
    }
}

/// The content of a sequence of lookup outputs.
pub open spec fn output_views(v: Seq<Option<String>>) -> Seq<Option<Seq<char>>> {
    v.map_values(
        |o: Option<String>|
            match o {
                Some(s) => Some(s@),
                None => None,
            },
    )
}

/// Builds the resolved `(name, value)` pairs from the secrets and, for each, what its
/// lookup printed (`None` where the lookup failed).
pub fn resolve_secrets(secrets: &[SecretDef], outputs: &[Option<String>]) -> (r: Vec<
    (String, String),
>)
    requires
        secrets@.len() == outputs@.len(),
    ensures
        pair_views(r@) == resolved_pairs(secret_views(secrets@), output_views(outputs@)),
        r@.len() <= secrets@.len(),
{
    let mut r: Vec<(String, String)> = Vec::new();
    let mut i: usize = 0;
    assert(secret_views(secrets@).take(0) =~= Seq::<SecretSpec>::empty());
    while i < secrets.len()
        invariant
            i <= secrets@.len() == outputs@.len(),
            pair_views(r@) == resolved_pairs(
                secret_views(secrets@).take(i as int),
                output_views(outputs@).take(i as int),
            ),
            r@.len() <= i,
        decreases secrets@.len() - i,
    {
        let ghost ds = secret_views(secrets@).take(i + 1);
        let ghost os = output_views(outputs@).take(i + 1);
        assert(ds.drop_last() == secret_views(secrets@).take(i as int));
        assert(os.drop_last() == output_views(outputs@).take(i as int));
        assert(ds.last() == secrets@[i as int]@);
        assert(os.last() == output_views(outputs@)[i as int]);
        let ghost before = r@;
        match &outputs[i] {
            Some(out) => {
                let value = op_output_value(out.as_str());
                let value = match &secrets[i].post_processor {
                    Some(p) => apply_post_processor(value.as_str(), p),
                    None => value,
                };
                r.push((secrets[i].var_name.clone(), value));
                assert(pair_views(r@) =~= pair_views(before).push((r@.last().0@, r@.last().1@)));
            },
            None => {},
        }
        i = i + 1;
    }
    assert(secret_views(secrets@).take(i as int) == secret_views(secrets@));
    assert(output_views(outputs@).take(i as int) == output_views(outputs@));
    r
}

/// Removing whitespace leaves no whitespace.
pub proof fn lemma_without_ws_has_none(s: Seq<char>)
    ensures
        forall|i: int| 0 <= i < without_ws(s).len() ==> !is_ws(#[trigger] without_ws(s)[i]),
    decreases s.len(),
{
    if s.len() > 0 {
        lemma_without_ws_has_none(s.drop_last());
        let w = without_ws(s);
        let p = without_ws(s.drop_last());
        assert forall|i: int| 0 <= i < w.len() implies !is_ws(#[trigger] w[i]) by {
            if i < p.len() {
                assert(w[i] == p[i]);
            }
        }
    }
}

/// A text with no whitespace is left as it is.
pub proof fn lemma_without_ws_keeps_clean(s: Seq<char>)
    requires
        forall|i: int| 0 <= i < s.len() ==> !is_ws(#[trigger] s[i]),
    ensures
        without_ws(s) == s,
    decreases s.len(),
{
    if s.len() > 0 {
        assert forall|i: int| 0 <= i < s.drop_last().len() implies !is_ws(
            #[trigger] s.drop_last()[i],
        ) by {
            assert(s.drop_last()[i] == s[i]);
        }
        lemma_without_ws_keeps_clean(s.drop_last());
        assert(s.drop_last().push(s.last()) == s);
    }
}

/// Stripping whitespace twice is stripping it once.
pub proof fn lemma_strip_whitespace_idempotent(s: Seq<char>)
    ensures
        without_ws(without_ws(s)) == without_ws(s),
{
    lemma_without_ws_has_none(s);
    lemma_without_ws_keeps_clean(without_ws(s));
}

/// Removing whitespace keeps exactly the characters that are not whitespace, in their
/// order: every other character stays.
pub proof fn lemma_without_ws_filters(s: Seq<char>)
    ensures
        without_ws(s) == s.filter(|c: char| !is_ws(c)),
    decreases s.len(),
{
    let f = |c: char| !is_ws(c);
    reveal(Seq::filter);
    if s.len() > 0 {
        lemma_without_ws_filters(s.drop_last());
        if is_ws(s.last()) {
            assert(s.filter(f) == s.drop_last().filter(f));
            assert(without_ws(s) =~= without_ws(s.drop_last()));
        } else {
            assert(s.filter(f) == s.drop_last().filter(f).push(s.last()));
            assert(without_ws(s) =~= without_ws(s.drop_last()).push(s.last()));
        }
    } else {
        assert(s.filter(f) == s);
        assert(s =~= Seq::<char>::empty());
    }
}

/// Removing whitespace from two texts joined is removing it from each and joining them.
pub proof fn lemma_without_ws_concat(a: Seq<char>, b: Seq<char>)
    ensures
        without_ws(a + b) == without_ws(a) + without_ws(b),
{
    lemma_without_ws_filters(a);
    lemma_without_ws_filters(b);
    lemma_without_ws_filters(a + b);
    Seq::filter_distributes_over_add(a, b, |c: char| !is_ws(c));
}

/// A single character is removed where it is whitespace and kept where it is not.
pub proof fn lemma_without_ws_char(c: char)
    ensures
        without_ws(seq![c]) == (if is_ws(c) {
            Seq::<char>::empty()
        } else {
            seq![c]
        }),
{
    assert(seq![c].drop_last() =~= Seq::<char>::empty());
    assert(without_ws(Seq::<char>::empty()) == Seq::<char>::empty());
    assert(seq![c].last() == c);
    if !is_ws(c) {
        assert(Seq::<char>::empty() + seq![c] =~= seq![c]);
    } else {
        assert(Seq::<char>::empty() + Seq::<char>::empty() =~= Seq::<char>::empty());
    }
}

/// Without a post-processor a value is left as it is; the strip_whitespace post-processor
/// keeps exactly its characters that are not whitespace, in order.
pub proof fn lemma_post_processed(v: Seq<char>)
    ensures
        post_processed(v, None) == v,
        post_processed(v, Some(PostProcessor::StripWhitespace)) == v.filter(|c: char| !is_ws(c)),
{
    lemma_without_ws_filters(v);
}

/// The pairs for two runs of secrets, each with its lookup outputs, are the pairs of the
/// first run followed by those of the second.
pub proof fn lemma_resolved_pairs_concat(
    d1: Seq<SecretSpec>,
    o1: Seq<Option<Seq<char>>>,
    d2: Seq<SecretSpec>,
    o2: Seq<Option<Seq<char>>>,
)
    requires
        d1.len() == o1.len(),
        d2.len() == o2.len(),
    ensures
        resolved_pairs(d1 + d2, o1 + o2) == resolved_pairs(d1, o1) + resolved_pairs(d2, o2),
    decreases d2.len(),
{
    if d2.len() == 0 {
        assert(d1 + d2 =~= d1);
        assert(o1 + o2 =~= o1);
        assert(resolved_pairs(d1, o1) + resolved_pairs(d2, o2) =~= resolved_pairs(d1, o1));
    } else {
        lemma_resolved_pairs_concat(d1, o1, d2.drop_last(), o2.drop_last());
        assert((d1 + d2).drop_last() =~= d1 + d2.drop_last());
        assert((o1 + o2).drop_last() =~= o1 + o2.drop_last());
        assert((d1 + d2).last() == d2.last());
        assert((o1 + o2).last() == o2.last());
        let tail = match o2.last() {
            Some(out) => seq![
                (d2.last().var_name, post_processed(strip_end(out, '\n'), d2.last().post_processor)),
            ],
            None => Seq::<(Seq<char>, Seq<char>)>::empty(),
        };
        assert(resolved_pairs(d1, o1) + resolved_pairs(d2.drop_last(), o2.drop_last()) + tail
            =~= resolved_pairs(d1, o1) + (resolved_pairs(d2.drop_last(), o2.drop_last()) + tail));
    }
}

/// One secret: a failed lookup gives no pair. A successful one gives one pair, the secret's
/// name and a value where, without a post-processor, the output is that value followed by
/// nothing but newlines and the value does not end in one (only the trailing newlines are
/// dropped); with strip_whitespace, the value is that same value with exactly its
/// whitespace characters removed.
pub proof fn lemma_resolved_one(d: SecretSpec, o: Seq<char>)
    ensures
        resolved_pairs(seq![d], seq![None]) == Seq::<(Seq<char>, Seq<char>)>::empty(),
        resolved_pairs(seq![d], seq![Some(o)]).len() == 1,
        resolved_pairs(seq![d], seq![Some(o)])[0].0 == d.var_name,
        d.post_processor is None ==> ({
            let v = resolved_pairs(seq![d], seq![Some(o)])[0].1;
            &&& v.len() <= o.len()
            &&& o == v + Seq::new((o.len() - v.len()) as nat, |_i: int| '\n')
            &&& !(v.len() > 0 && v.last() == '\n')
        }),
        d.post_processor == Some(PostProcessor::StripWhitespace) ==> resolved_pairs(
            seq![d],
            seq![Some(o)],
        )[0].1 == resolved_pairs(
            seq![(SecretSpec { var_name: d.var_name, op_uri: d.op_uri, post_processor: None })],
            seq![Some(o)],
        )[0].1.filter(|c: char| !is_ws(c)),
{
    let plain = SecretSpec { var_name: d.var_name, op_uri: d.op_uri, post_processor: None };
    assert(seq![d].drop_last() =~= Seq::<SecretSpec>::empty());
    assert(seq![plain].drop_last() =~= Seq::<SecretSpec>::empty());
    assert(seq![None::<Seq<char>>].drop_last() =~= Seq::<Option<Seq<char>>>::empty());
    assert(seq![Some(o)].drop_last() =~= Seq::<Option<Seq<char>>>::empty());
    assert(resolved_pairs(Seq::<SecretSpec>::empty(), Seq::<Option<Seq<char>>>::empty())
        == Seq::<(Seq<char>, Seq<char>)>::empty());
    let p = (d.var_name, post_processed(strip_end(o, '\n'), d.post_processor));
    assert(resolved_pairs(seq![d], seq![Some(o)]) =~= seq![p]);
    let q = (plain.var_name, post_processed(strip_end(o, '\n'), plain.post_processor));
    assert(resolved_pairs(seq![plain], seq![Some(o)]) =~= seq![q]);
    assert(resolved_pairs(seq![d], seq![None]) =~= Seq::<(Seq<char>, Seq<char>)>::empty());
    lemma_strip_end_shape(o, '\n');
    lemma_without_ws_filters(strip_end(o, '\n'));
}

} // verus!
