//! Tokenization for the full-text index: normalizes case, splits text
//! into tokens by one of three strategies, and drops tokens under the
//! configured minimum length.

use vstd::prelude::*;

verus! {

use vstd::string::StrSliceExecFns;
use vstd::utf8::encode_utf8;

/// Configuration of one full-text index.
#[derive(Debug, Clone)]
pub struct IndexConfig {
    pub index_id: String,
    pub property_name: String,
    /// Tokenizer name: "whitespace", "alphanumeric" or "ngram"; anything
    /// else falls back to whitespace splitting.
    pub tokenizer: String,
    pub case_sensitive: bool,
    pub min_token_length: usize,
    pub max_results: usize,
}

/// What `str::to_lowercase` returns; the result depends on the
/// characters alone.
pub uninterp spec fn lower_of(s: Seq<char>) -> Seq<char>;

/// Relies on `str::to_lowercase` for Unicode case folding.
#[verifier::external_body]
fn to_lowercase(s: &str) -> (r: String)
    ensures
        r@ == lower_of(s@),
{
    s.to_lowercase()
}

/// Whether `char::is_alphanumeric` holds of a character; a property of
/// the character alone.
pub uninterp spec fn is_alnum_char(c: char) -> bool;

/// Relies on `char::is_alphanumeric` for the Unicode letter-or-number
/// classes.
#[verifier::external_body]
fn char_is_alphanumeric(c: char) -> (r: bool)
    ensures
        r == is_alnum_char(c),
{
    c.is_alphanumeric()
}

/// Whether `char::is_whitespace` holds of a character; a property of the
/// character alone.
pub uninterp spec fn is_ws_char(c: char) -> bool;

/// Relies on `char::is_whitespace` for the Unicode whitespace class.
#[verifier::external_body]
fn char_is_whitespace(c: char) -> (r: bool)
    ensures
        r == is_ws_char(c),
{
    c.is_whitespace()
}

/// Maximal runs of characters satisfying `keep`, reading `s` left to
/// right with `cur` the run in progress.
pub open spec fn runs(
    s: Seq<char>,
    cur: Seq<char>,
    keep: spec_fn(char) -> bool,
) -> Seq<Seq<char>>
    decreases s.len(),
{
    if s.len() == 0 {
        if cur.len() == 0 {
            Seq::empty()
        } else {
            seq![cur]
        }
    } else if keep(s[0]) {
        runs(s.drop_first(), cur.push(s[0]), keep)
    } else if cur.len() == 0 {
        runs(s.drop_first(), cur, keep)
    } else {
        seq![cur] + runs(s.drop_first(), Seq::empty(), keep)
    }
}

/// The trigrams of `s`: every three consecutive characters, in order.
pub open spec fn trigrams(s: Seq<char>) -> Seq<Seq<char>> {
    if s.len() < 3 {
        Seq::empty()
    } else {
        Seq::new((s.len() - 2) as nat, |i: int| s.subrange(i, i + 3))
    }
}

/// The tokens `tokenize` produces for a text under a configuration:
/// case-normalized, split by the configured strategy, and filtered to
/// the minimum byte length (bytes as the machine counts them).
pub open spec fn spec_tokenize(
    text: Seq<char>,
    tokenizer: Seq<char>,
    case_sensitive: bool,
    min_token_length: usize,
) -> Seq<Seq<char>> {
    let norm = if case_sensitive {
        text
    } else {
        lower_of(text)
    };
    let toks = if tokenizer == "whitespace"@ {
        runs(norm, Seq::empty(), |c: char| !is_ws_char(c))
    } else if tokenizer == "alphanumeric"@ {
        runs(norm, Seq::empty(), |c: char| is_alnum_char(c))
    } else if tokenizer == "ngram"@ {
        trigrams(norm)
    } else {
        runs(norm, Seq::empty(), |c: char| !is_ws_char(c))
    };
    toks.filter(|t: Seq<char>| encode_utf8(t).len() as usize >= min_token_length)
}

/// Views of produced tokens.
pub open spec fn token_views(s: Seq<String>) -> Seq<Seq<char>> {
    s.map_values(|t: String| t@)
}

/// Splits `text` into the maximal runs of characters satisfying the
/// exec test `keep`, whose spec image is `keep_spec`.
fn split_runs(text: &str, alnum_mode: bool) -> (r: Vec<String>)
    ensures
        alnum_mode ==> token_views(r@) == runs(
            text@,
            Seq::empty(),
            |c: char| is_alnum_char(c),
        ),
        !alnum_mode ==> token_views(r@) == runs(
            text@,
            Seq::empty(),
            |c: char| !is_ws_char(c),
        ),
{
    let ghost keep: spec_fn(char) -> bool = if alnum_mode {
        |c: char| is_alnum_char(c)
    } else {
        |c: char| !is_ws_char(c)
    };
    let n = text.unicode_len();
    let mut tokens: Vec<String> = Vec::new();
    let mut start: usize = 0;
    let mut in_run: bool = false;
    let mut i: usize = 0;
    proof {
        assert(text@.skip(0) =~= text@);
        assert(token_views(tokens@) + runs(text@, Seq::empty(), keep) =~= runs(
            text@,
            Seq::empty(),
            keep,
        ));
    }
    while i < n
        invariant
            n == text@.len(),
            i <= n,
            in_run ==> start < i,
            in_run ==> forall|k: int| start <= k < i ==> keep(#[trigger] text@[k]),
            !in_run ==> runs(text@, Seq::empty(), keep) == token_views(tokens@) + runs(
                text@.skip(i as int),
                Seq::empty(),
                keep,
            ),
            in_run ==> runs(text@, Seq::empty(), keep) == token_views(tokens@) + runs(
                text@.skip(i as int),
                text@.subrange(start as int, i as int),
                keep,
            ),
            keep == (if alnum_mode {
                |c: char| is_alnum_char(c)
            } else {
                |c: char| !is_ws_char(c)
            }),
        decreases n - i,
    {
        let c = text.get_char(i);
        let keep_c = if alnum_mode {
            char_is_alphanumeric(c)
        } else {
            !char_is_whitespace(c)
        };
        proof {
            assert(keep_c == keep(text@[i as int]));
            assert(text@.skip(i as int)[0] == text@[i as int]);
            assert(text@.skip(i as int).drop_first() =~= text@.skip(i + 1));
        }
        if keep_c {
            if !in_run {
                start = i;
                in_run = true;
                proof {
                    assert(runs(text@.skip(i as int), Seq::empty(), keep) == runs(
                        text@.skip(i + 1),
                        Seq::empty().push(text@[i as int]),
                        keep,
                    ));
                    assert(Seq::empty().push(text@[i as int]) =~= text@.subrange(
                        i as int,
                        i + 1,
                    ));
                }
            } else {
                proof {
                    let cur = text@.subrange(start as int, i as int);
                    assert(runs(text@.skip(i as int), cur, keep) == runs(
                        text@.skip(i + 1),
                        cur.push(text@[i as int]),
                        keep,
                    ));
                    assert(cur.push(text@[i as int]) =~= text@.subrange(start as int, i + 1));
                }
            }
        } else {
            if in_run {
                let tok = text.substring_char(start, i).to_owned();
                let ghost pre = tokens@;
                tokens.push(tok);
                in_run = false;
                proof {
                    let cur = text@.subrange(start as int, i as int);
                    assert(cur.len() > 0);
                    assert(runs(text@.skip(i as int), cur, keep) == seq![cur] + runs(
                        text@.skip(i + 1),
                        Seq::empty(),
                        keep,
                    ));
                    assert(token_views(tokens@) =~= token_views(pre).push(
                        text@.subrange(start as int, i as int),
                    ));
                    assert(token_views(pre) + (seq![
                        text@.subrange(start as int, i as int),
                    ] + runs(text@.skip(i + 1), Seq::empty(), keep)) =~= token_views(tokens@)
                        + runs(text@.skip(i + 1), Seq::empty(), keep));
                }
            } else {
                proof {
                    assert(runs(text@.skip(i as int), Seq::empty(), keep) == runs(
                        text@.skip(i + 1),
                        Seq::empty(),
                        keep,
                    ));
                }
            }
        }
        i += 1;
    }
    proof {
        assert(text@.skip(n as int) =~= Seq::<char>::empty());
    }
    if in_run {
        let tok = text.substring_char(start, n).to_owned();
        let ghost pre = tokens@;
        tokens.push(tok);
        proof {
            assert(text@.subrange(start as int, n as int) =~= text@.subrange(
                start as int,
                n as int,
            ));
            assert(token_views(tokens@) =~= token_views(pre).push(
                text@.subrange(start as int, n as int),
            ));
            assert(token_views(pre) + seq![text@.subrange(start as int, n as int)] =~= token_views(
                tokens@,
            ));
        }
    } else {
        proof {
            assert(token_views(tokens@) + Seq::<Seq<char>>::empty() =~= token_views(tokens@));
        }
    }
    tokens
}

/// The trigrams of `text`, in order.
fn split_trigrams(text: &str) -> (r: Vec<String>)
    ensures
        token_views(r@) == trigrams(text@),
{
    let n = text.unicode_len();
    let mut tokens: Vec<String> = Vec::new();
    if n < 3 {
        proof {
            assert(token_views(tokens@) =~= trigrams(text@));
        }
        return tokens;
    }
    let mut i: usize = 0;
    while i <= n - 3
        invariant
            n == text@.len(),
            3 <= n,
            i <= n - 2,
            token_views(tokens@) =~= trigrams(text@).take(i as int),
        decreases n - i,
    {
        let tok = text.substring_char(i, i + 3).to_owned();
        tokens.push(tok);
        proof {
            assert(trigrams(text@)[i as int] == text@.subrange(i as int, i + 3));
            assert(trigrams(text@).take(i + 1) =~= trigrams(text@).take(i as int).push(
                trigrams(text@)[i as int],
            ));
            assert(token_views(tokens@) =~= trigrams(text@).take(i + 1));
        }
        i += 1;
    }
    proof {
        assert(trigrams(text@).take((n - 2) as int) =~= trigrams(text@));
    }
    tokens
}

/// Splits a text into search tokens: normalizes case unless the
/// configuration is case-sensitive, splits by the configured strategy
/// (whitespace runs, alphanumeric runs, or trigrams, with whitespace the
/// fallback), and keeps the tokens of at least the minimum byte length.
pub fn tokenize(text: &str, config: &IndexConfig) -> (r: Vec<String>)
    ensures
        token_views(r@) == spec_tokenize(
            text@,
            config.tokenizer@,
            config.case_sensitive,
            config.min_token_length,
        ),
{
    let normalized: String = if config.case_sensitive {
        text.to_owned()
    } else {
        to_lowercase(text)
    };
    let ghost norm = normalized@;

    let tokens: Vec<String> = if config.tokenizer == String::from_str("whitespace") {
        split_runs(normalized.as_str(), false)
    } else if config.tokenizer == String::from_str("alphanumeric") {
        split_runs(normalized.as_str(), true)
    } else if config.tokenizer == String::from_str("ngram") {
        split_trigrams(normalized.as_str())
    } else {
        split_runs(normalized.as_str(), false)
    };

    let ghost min_pred = |t: Seq<char>| encode_utf8(t).len() as usize
        >= config.min_token_length;
    let mut out: Vec<String> = Vec::new();
    let mut i: usize = 0;
    while i < tokens.len()
        invariant
            i <= tokens@.len(),
            token_views(out@) == token_views(tokens@.take(i as int)).filter(min_pred),
            min_pred == (|t: Seq<char>| encode_utf8(t).len() as usize
                >= config.min_token_length),
        decreases tokens@.len() - i,
    {
        let t = &tokens[i];
        let ghost pre = out@;
        proof {
            assert(tokens@.take(i + 1) =~= tokens@.take(i as int).push(tokens@[i as int]));
            assert(token_views(tokens@.take(i + 1)) =~= token_views(tokens@.take(i as int)).push(
                t@,
            ));
            crate::spatial::lemma_filter_push(token_views(tokens@.take(i as int)), t@, min_pred);
        }
        if t.as_str().len() >= config.min_token_length {
            let copy = t.clone();
            out.push(copy);
            proof {
                assert(token_views(out@) =~= token_views(pre).push(t@));
            }
        }
        i += 1;
    }
    proof {
        assert(tokens@.take(tokens@.len() as int) =~= tokens@);
        assert(token_views(out@) =~= spec_tokenize(
            text@,
            config.tokenizer@,
            config.case_sensitive,
            config.min_token_length,
        ));
    }
    out
}

/// A token table (token to node-id list, or node to token list) as a map.
pub open spec fn list_map(s: Seq<(String, Vec<String>)>) -> Map<Seq<char>, Seq<Seq<char>>>
    decreases s.len(),
{
    if s.len() == 0 {
        Map::empty()
    } else {
        list_map(s.drop_last()).insert(s.last().0@, token_views(s.last().1@))
    }
}

pub open spec fn list_keys_unique(s: Seq<(String, Vec<String>)>) -> bool {
    forall|i: int, j: int| 0 <= i < j < s.len() ==> (#[trigger] s[i]).0@ != (#[trigger] s[j]).0@
}

/// The content table as a map.
pub open spec fn content_map(s: Seq<(String, String)>) -> Map<Seq<char>, Seq<char>>
    decreases s.len(),
{
    if s.len() == 0 {
        Map::empty()
    } else {
        content_map(s.drop_last()).insert(s.last().0@, s.last().1@)
    }
}

pub open spec fn content_keys_unique(s: Seq<(String, String)>) -> bool {
    forall|i: int, j: int| 0 <= i < j < s.len() ==> (#[trigger] s[i]).0@ != (#[trigger] s[j]).0@
}

proof fn lemma_list_dom(s: Seq<(String, Vec<String>)>, k: Seq<char>)
    ensures
        list_map(s).dom().contains(k) <==> exists|i: int| 0 <= i < s.len() && (#[trigger] s[i]).0@
            == k,
    decreases s.len(),
{
    if s.len() > 0 {
        lemma_list_dom(s.drop_last(), k);
        if list_map(s).dom().contains(k) {
            if s.last().0@ != k {
                let d = s.drop_last();
                let i = choose|i: int| 0 <= i < d.len() && (#[trigger] d[i]).0@ == k;
                assert(s[i].0@ == k);
            } else {
                assert(s[s.len() - 1].0@ == k);
            }
        }
        if exists|i: int| 0 <= i < s.len() && (#[trigger] s[i]).0@ == k {
            let i = choose|i: int| 0 <= i < s.len() && (#[trigger] s[i]).0@ == k;
            if i < s.len() - 1 {
                assert(s.drop_last()[i].0@ == k);
            }
        }
    }
}

proof fn lemma_list_index(s: Seq<(String, Vec<String>)>, i: int)
    requires
        list_keys_unique(s),
        0 <= i < s.len(),
    ensures
        list_map(s).dom().contains(s[i].0@),
        list_map(s)[s[i].0@] == token_views(s[i].1@),
    decreases s.len(),
{
    if i < s.len() - 1 {
        assert(list_keys_unique(s.drop_last()));
        assert(s.drop_last()[i] == s[i]);
        lemma_list_index(s.drop_last(), i);
        assert(s[i].0@ != s.last().0@);
    }
}

proof fn lemma_list_update(s: Seq<(String, Vec<String>)>, i: int, e: (String, Vec<String>))
    requires
        list_keys_unique(s),
        0 <= i < s.len(),
        s[i].0@ == e.0@,
    ensures
        list_keys_unique(s.update(i, e)),
        list_map(s.update(i, e)) == list_map(s).insert(e.0@, token_views(e.1@)),
    decreases s.len(),
{
    let t = s.update(i, e);
    assert(list_keys_unique(t));
    if i == s.len() - 1 {
        assert(t.drop_last() =~= s.drop_last());
        assert(t.last() == e);
        assert(list_map(t) =~= list_map(s).insert(e.0@, token_views(e.1@)));
    } else {
        assert(list_keys_unique(s.drop_last()));
        assert(s.drop_last()[i] == s[i]);
        lemma_list_update(s.drop_last(), i, e);
        assert(t.drop_last() =~= s.drop_last().update(i, e));
        assert(t.last() == s.last());
        assert(s[i].0@ != s.last().0@);
        assert(list_map(t) =~= list_map(s).insert(e.0@, token_views(e.1@)));
    }
}

proof fn lemma_list_remove(s: Seq<(String, Vec<String>)>, i: int)
    requires
        list_keys_unique(s),
        0 <= i < s.len(),
    ensures
        list_keys_unique(s.remove(i)),
        list_map(s.remove(i)) == list_map(s).remove(s[i].0@),
    decreases s.len(),
{
    let t = s.remove(i);
    assert(list_keys_unique(t)) by {
        assert forall|a: int, b: int| 0 <= a < b < t.len() implies (#[trigger] t[a]).0@ != (
        #[trigger] t[b]).0@ by {
            let a0 = if a < i {
                a
            } else {
                a + 1
            };
            let b0 = if b < i {
                b
            } else {
                b + 1
            };
            assert(t[a] == s[a0] && t[b] == s[b0]);
        }
    }
    if i == s.len() - 1 {
        assert(t =~= s.drop_last());
        lemma_list_dom(s.drop_last(), s[i].0@);
        assert(forall|j: int|
            0 <= j < s.drop_last().len() ==> (#[trigger] s.drop_last()[j]).0@ != s[i].0@);
        assert(!list_map(s.drop_last()).dom().contains(s[i].0@));
        assert(list_map(t) =~= list_map(s).remove(s[i].0@));
    } else {
        assert(list_keys_unique(s.drop_last()));
        assert(s.drop_last()[i] == s[i]);
        lemma_list_remove(s.drop_last(), i);
        assert(t.drop_last() =~= s.drop_last().remove(i));
        assert(t.last() == s.last());
        assert(s[i].0@ != s.last().0@);
        assert(list_map(t) =~= list_map(s).remove(s[i].0@));
    }
}

proof fn lemma_content_dom(s: Seq<(String, String)>, k: Seq<char>)
    ensures
        content_map(s).dom().contains(k) <==> exists|i: int|
            0 <= i < s.len() && (#[trigger] s[i]).0@ == k,
    decreases s.len(),
{
    if s.len() > 0 {
        lemma_content_dom(s.drop_last(), k);
        if content_map(s).dom().contains(k) {
            if s.last().0@ != k {
                let d = s.drop_last();
                let i = choose|i: int| 0 <= i < d.len() && (#[trigger] d[i]).0@ == k;
                assert(s[i].0@ == k);
            } else {
                assert(s[s.len() - 1].0@ == k);
            }
        }
        if exists|i: int| 0 <= i < s.len() && (#[trigger] s[i]).0@ == k {
            let i = choose|i: int| 0 <= i < s.len() && (#[trigger] s[i]).0@ == k;
            if i < s.len() - 1 {
                assert(s.drop_last()[i].0@ == k);
            }
        }
    }
}

proof fn lemma_content_index(s: Seq<(String, String)>, i: int)
    requires
        content_keys_unique(s),
        0 <= i < s.len(),
    ensures
        content_map(s).dom().contains(s[i].0@),
        content_map(s)[s[i].0@] == s[i].1@,
    decreases s.len(),
{
    if i < s.len() - 1 {
        assert(content_keys_unique(s.drop_last()));
        assert(s.drop_last()[i] == s[i]);
        lemma_content_index(s.drop_last(), i);
        assert(s[i].0@ != s.last().0@);
    }
}

proof fn lemma_content_update(s: Seq<(String, String)>, i: int, e: (String, String))
    requires
        content_keys_unique(s),
        0 <= i < s.len(),
        s[i].0@ == e.0@,
    ensures
        content_keys_unique(s.update(i, e)),
        content_map(s.update(i, e)) == content_map(s).insert(e.0@, e.1@),
    decreases s.len(),
{
    let t = s.update(i, e);
    assert(content_keys_unique(t));
    if i == s.len() - 1 {
        assert(t.drop_last() =~= s.drop_last());
        assert(t.last() == e);
        assert(content_map(t) =~= content_map(s).insert(e.0@, e.1@));
    } else {
        assert(content_keys_unique(s.drop_last()));
        assert(s.drop_last()[i] == s[i]);
        lemma_content_update(s.drop_last(), i, e);
        assert(t.drop_last() =~= s.drop_last().update(i, e));
        assert(t.last() == s.last());
        assert(s[i].0@ != s.last().0@);
        assert(content_map(t) =~= content_map(s).insert(e.0@, e.1@));
    }
}

proof fn lemma_content_remove(s: Seq<(String, String)>, i: int)
    requires
        content_keys_unique(s),
        0 <= i < s.len(),
    ensures
        content_keys_unique(s.remove(i)),
        content_map(s.remove(i)) == content_map(s).remove(s[i].0@),
    decreases s.len(),
{
    let t = s.remove(i);
    assert(content_keys_unique(t)) by {
        assert forall|a: int, b: int| 0 <= a < b < t.len() implies (#[trigger] t[a]).0@ != (
        #[trigger] t[b]).0@ by {
            let a0 = if a < i {
                a
            } else {
                a + 1
            };
            let b0 = if b < i {
                b
            } else {
                b + 1
            };
            assert(t[a] == s[a0] && t[b] == s[b0]);
        }
    }
    if i == s.len() - 1 {
        assert(t =~= s.drop_last());
        lemma_content_dom(s.drop_last(), s[i].0@);
        assert(forall|j: int|
            0 <= j < s.drop_last().len() ==> (#[trigger] s.drop_last()[j]).0@ != s[i].0@);
        assert(!content_map(s.drop_last()).dom().contains(s[i].0@));
        assert(content_map(t) =~= content_map(s).remove(s[i].0@));
    } else {
        assert(content_keys_unique(s.drop_last()));
        assert(s.drop_last()[i] == s[i]);
        lemma_content_remove(s.drop_last(), i);
        assert(t.drop_last() =~= s.drop_last().remove(i));
        assert(t.last() == s.last());
        assert(s[i].0@ != s.last().0@);
        assert(content_map(t) =~= content_map(s).remove(s[i].0@));
    }
}

/// The ids different from `id`.
pub open spec fn ne_pred(id: Seq<char>) -> spec_fn(Seq<char>) -> bool {
    |x: Seq<char>| x != id
}

/// The tokens equal to `id`.
pub open spec fn eq_pred(id: Seq<char>) -> spec_fn(Seq<char>) -> bool {
    |x: Seq<char>| x == id
}

/// Removing a document id from the token table, token by token: where a
/// token's list loses its last id the token disappears.
pub open spec fn spec_remove_from_tokens(
    tn: Map<Seq<char>, Seq<Seq<char>>>,
    toks: Seq<Seq<char>>,
    id: Seq<char>,
) -> Map<Seq<char>, Seq<Seq<char>>>
    decreases toks.len(),
{
    if toks.len() == 0 {
        tn
    } else {
        let t = toks[0];
        let tn2 = if tn.dom().contains(t) {
            let kept = tn[t].filter(ne_pred(id));
            if kept.len() == 0 {
                tn.remove(t)
            } else {
                tn.insert(t, kept)
            }
        } else {
            tn
        };
        spec_remove_from_tokens(tn2, toks.drop_first(), id)
    }
}

/// Adding a document id under every token, token by token, in order.
pub open spec fn spec_add_to_tokens(
    tn: Map<Seq<char>, Seq<Seq<char>>>,
    toks: Seq<Seq<char>>,
    id: Seq<char>,
) -> Map<Seq<char>, Seq<Seq<char>>>
    decreases toks.len(),
{
    if toks.len() == 0 {
        tn
    } else {
        let t = toks[0];
        let tn2 = tn.insert(
            t,
            if tn.dom().contains(t) {
                tn[t].push(id)
            } else {
                seq![id]
            },
        );
        spec_add_to_tokens(tn2, toks.drop_first(), id)
    }
}

/// Inverted index: which documents carry a token, which tokens a
/// document carries, and each document's content.
pub struct InvertedIndex {
    token_to_nodes: Vec<(String, Vec<String>)>,
    node_to_tokens: Vec<(String, Vec<String>)>,
    node_to_content: Vec<(String, String)>,
}

impl InvertedIndex {
    /// Document ids per token.
    pub closed spec fn tokens(self) -> Map<Seq<char>, Seq<Seq<char>>> {
        list_map(self.token_to_nodes@)
    }

    /// Tokens per document id.
    pub closed spec fn docs(self) -> Map<Seq<char>, Seq<Seq<char>>> {
        list_map(self.node_to_tokens@)
    }

    /// Content per document id.
    pub closed spec fn contents(self) -> Map<Seq<char>, Seq<char>> {
        content_map(self.node_to_content@)
    }

    /// One entry per key in each of the three tables.
    pub closed spec fn wf(self) -> bool {
        &&& list_keys_unique(self.token_to_nodes@)
        &&& list_keys_unique(self.node_to_tokens@)
        &&& content_keys_unique(self.node_to_content@)
    }

    /// A new empty index.
    pub fn new() -> (r: Self)
        ensures
            r.wf(),
            r.tokens() =~= Map::<Seq<char>, Seq<Seq<char>>>::empty(),
            r.docs() =~= Map::<Seq<char>, Seq<Seq<char>>>::empty(),
            r.contents() =~= Map::<Seq<char>, Seq<char>>::empty(),
    {
        InvertedIndex {
            token_to_nodes: Vec::new(),
            node_to_tokens: Vec::new(),
            node_to_content: Vec::new(),
        }
    }

    fn list_find(v: &Vec<(String, Vec<String>)>, id: &String) -> (r: Option<usize>)
        ensures
            match r {
                Some(i) => i < v@.len() && v@[i as int].0@ == id@,
                None => forall|i: int| 0 <= i < v@.len() ==> (#[trigger] v@[i]).0@ != id@,
            },
    {
        let mut i: usize = 0;
        while i < v.len()
            invariant
                i <= v@.len(),
                forall|j: int| 0 <= j < i ==> (#[trigger] v@[j]).0@ != id@,
            decreases v@.len() - i,
        {
            if v[i].0 == *id {
                return Some(i);
            }
            i += 1;
        }
        None
    }

    fn content_find(v: &Vec<(String, String)>, id: &String) -> (r: Option<usize>)
        ensures
            match r {
                Some(i) => i < v@.len() && v@[i as int].0@ == id@,
                None => forall|i: int| 0 <= i < v@.len() ==> (#[trigger] v@[i]).0@ != id@,
            },
    {
        let mut i: usize = 0;
        while i < v.len()
            invariant
                i <= v@.len(),
                forall|j: int| 0 <= j < i ==> (#[trigger] v@[j]).0@ != id@,
            decreases v@.len() - i,
        {
            if v[i].0 == *id {
                return Some(i);
            }
            i += 1;
        }
        None
    }

    /// Remove a document: its content and token list go, and its id
    /// leaves every token's list it was on, tokens left with no
    /// document disappearing.
    pub fn remove_document(&mut self, node_id: &String)
        requires
            old(self).wf(),
        ensures
            final(self).wf(),
            final(self).contents() == old(self).contents().remove(node_id@),
            final(self).docs() == old(self).docs().remove(node_id@),
            final(self).tokens() == spec_remove_from_tokens(
                old(self).tokens(),
                if old(self).docs().dom().contains(node_id@) {
                    old(self).docs()[node_id@]
                } else {
                    Seq::empty()
                },
                node_id@,
            ),
    {
        let ghost nt0 = self.node_to_tokens@;
        let found = Self::list_find(&self.node_to_tokens, node_id);
        proof {
            lemma_list_dom(nt0, node_id@);
        }
        match found {
            Some(i) => {
                proof {
                    lemma_list_index(nt0, i as int);
                }
                let (_key, tokens) = self.node_to_tokens.remove(i);
                proof {
                    lemma_list_remove(nt0, i as int);
                }
                let ghost toks = token_views(tokens@);
                let ghost tn0 = list_map(self.token_to_nodes@);
                proof {
                    assert(toks.skip(0) =~= toks);
                }
                let mut j: usize = 0;
                while j < tokens.len()
                    invariant
                        self.wf(),
                        j <= tokens@.len(),
                        toks == token_views(tokens@),
                        spec_remove_from_tokens(tn0, toks, node_id@)
                            == spec_remove_from_tokens(
                            list_map(self.token_to_nodes@),
                            toks.skip(j as int),
                            node_id@,
                        ),
                        self.node_to_tokens@ == nt0.remove(i as int),
                        self.node_to_content@ == old(self).node_to_content@,
                    decreases tokens@.len() - j,
                {
                    let token = &tokens[j];
                    proof {
                        assert(toks.skip(j as int)[0] == tokens@[j as int]@);
                        assert(toks.skip(j as int).drop_first() =~= toks.skip(j + 1));
                    }
                    let ghost tnc = list_map(self.token_to_nodes@);
                    let tfound = Self::list_find(&self.token_to_nodes, token);
                    proof {
                        lemma_list_dom(self.token_to_nodes@, token@);
                    }
                    match tfound {
                        Some(ti) => {
                            proof {
                                lemma_list_index(self.token_to_nodes@, ti as int);
                            }
                            let ghost tpre = self.token_to_nodes@;
                            let (tkey, list) = self.token_to_nodes.remove(ti);
                            let ghost pred = ne_pred(node_id@);
                            let mut kept: Vec<String> = Vec::new();
                            let mut k: usize = 0;
                            while k < list.len()
                                invariant
                                    k <= list@.len(),
                                    pred == ne_pred(node_id@),
                                    token_views(kept@) == token_views(list@.take(k as int)).filter(
                                        pred,
                                    ),
                                decreases list@.len() - k,
                            {
                                let ghost kpre = kept@;
                                proof {
                                    assert(list@.take(k + 1) =~= list@.take(k as int).push(
                                        list@[k as int],
                                    ));
                                    assert(token_views(list@.take(k + 1)) =~= token_views(
                                        list@.take(k as int),
                                    ).push(list@[k as int]@));
                                    crate::spatial::lemma_filter_push(
                                        token_views(list@.take(k as int)),
                                        list@[k as int]@,
                                        pred,
                                    );
                                }
                                if !(list[k] == *node_id) {
                                    kept.push(list[k].clone());
                                    proof {
                                        assert(token_views(kept@) =~= token_views(kpre).push(
                                            list@[k as int]@,
                                        ));
                                    }
                                }
                                k += 1;
                            }
                            proof {
                                assert(list@.take(list@.len() as int) =~= list@);
                            }
                            if kept.len() == 0 {
                                proof {
                                    lemma_list_remove(tpre, ti as int);
                                }
                            } else {
                                self.token_to_nodes.insert(ti, (tkey, kept));
                                proof {
                                    assert(self.token_to_nodes@ =~= tpre.update(
                                        ti as int,
                                        self.token_to_nodes@[ti as int],
                                    ));
                                    lemma_list_update(
                                        tpre,
                                        ti as int,
                                        self.token_to_nodes@[ti as int],
                                    );
                                }
                            }
                        },
                        None => {},
                    }
                    j += 1;
                }
                proof {
                    assert(toks.skip(tokens@.len() as int) =~= Seq::<Seq<char>>::empty());
                }
            },
            None => {
                proof {
                    assert(!list_map(nt0).dom().contains(node_id@));
                    assert(list_map(nt0).remove(node_id@) =~= list_map(nt0));
                }
            },
        }

        let ghost nc0 = self.node_to_content@;
        let cfound = Self::content_find(&self.node_to_content, node_id);
        proof {
            lemma_content_dom(nc0, node_id@);
        }
        match cfound {
            Some(ci) => {
                self.node_to_content.remove(ci);
                proof {
                    lemma_content_remove(nc0, ci as int);
                }
            },
            None => {
                proof {
                    assert(!content_map(nc0).dom().contains(node_id@));
                    assert(content_map(nc0).remove(node_id@) =~= content_map(nc0));
                }
            },
        }
    }

    /// Add a document: any previous version of it is removed first, the
    /// content and token list are stored, and the id is listed under
    /// every token, once per occurrence, in token order.
    pub fn add_document(&mut self, node_id: String, tokens: Vec<String>, content: String)
        requires
            old(self).wf(),
        ensures
            final(self).wf(),
            final(self).contents() == old(self).contents().remove(node_id@).insert(
                node_id@,
                content@,
            ),
            final(self).docs() == old(self).docs().remove(node_id@).insert(
                node_id@,
                token_views(tokens@),
            ),
            final(self).tokens() == spec_add_to_tokens(
                spec_remove_from_tokens(
                    old(self).tokens(),
                    if old(self).docs().dom().contains(node_id@) {
                        old(self).docs()[node_id@]
                    } else {
                        Seq::empty()
                    },
                    node_id@,
                ),
                token_views(tokens@),
                node_id@,
            ),
    {
        self.remove_document(&node_id);

        let ghost nc1 = self.node_to_content@;
        self.node_to_content.push((node_id.clone(), content));
        proof {
            assert(self.node_to_content@.drop_last() =~= nc1);
            assert(!content_map(nc1).dom().contains(node_id@)) by {
                lemma_content_dom(nc1, node_id@);
            }
            assert(forall|k: int| 0 <= k < nc1.len() ==> (#[trigger] nc1[k]).0@ != node_id@) by {
                lemma_content_dom(nc1, node_id@);
            }
            assert(content_keys_unique(self.node_to_content@));
        }

        let ghost nt1 = self.node_to_tokens@;
        let mut stored: Vec<String> = Vec::new();
        let mut j: usize = 0;
        while j < tokens.len()
            invariant
                j <= tokens@.len(),
                stored@.len() == j,
                forall|k: int| 0 <= k < j ==> (#[trigger] stored@[k])@ == tokens@[k]@,
            decreases tokens@.len() - j,
        {
            stored.push(tokens[j].clone());
            j += 1;
        }
        self.node_to_tokens.push((node_id.clone(), stored));
        proof {
            assert(self.node_to_tokens@.drop_last() =~= nt1);
            assert(token_views(self.node_to_tokens@.last().1@) =~= token_views(tokens@));
            assert(!list_map(nt1).dom().contains(node_id@)) by {
                lemma_list_dom(nt1, node_id@);
            }
            assert(forall|k: int| 0 <= k < nt1.len() ==> (#[trigger] nt1[k]).0@ != node_id@) by {
                lemma_list_dom(nt1, node_id@);
            }
            assert(list_keys_unique(self.node_to_tokens@));
        }

        let ghost toks = token_views(tokens@);
        let ghost tn1 = list_map(self.token_to_nodes@);
        let ghost nc2 = self.node_to_content@;
        let ghost nt2 = self.node_to_tokens@;
        proof {
            assert(toks.skip(0) =~= toks);
        }
        let mut j: usize = 0;
        while j < tokens.len()
            invariant
                list_keys_unique(self.token_to_nodes@),
                content_keys_unique(self.node_to_content@),
                list_keys_unique(self.node_to_tokens@),
                self.node_to_content@ == nc2,
                self.node_to_tokens@ == nt2,
                j <= tokens@.len(),
                toks == token_views(tokens@),
                spec_add_to_tokens(tn1, toks, node_id@) == spec_add_to_tokens(
                    list_map(self.token_to_nodes@),
                    toks.skip(j as int),
                    node_id@,
                ),
            decreases tokens@.len() - j,
        {
            let token = &tokens[j];
            proof {
                assert(toks.skip(j as int)[0] == tokens@[j as int]@);
                assert(toks.skip(j as int).drop_first() =~= toks.skip(j + 1));
            }
            let tfound = Self::list_find(&self.token_to_nodes, token);
            proof {
                lemma_list_dom(self.token_to_nodes@, token@);
            }
            match tfound {
                Some(ti) => {
                    proof {
                        lemma_list_index(self.token_to_nodes@, ti as int);
                    }
                    let ghost tpre = self.token_to_nodes@;
                    let (tkey, mut list) = self.token_to_nodes.remove(ti);
                    let ghost plist = list@;
                    list.push(node_id.clone());
                    self.token_to_nodes.insert(ti, (tkey, list));
                    proof {
                        assert(token_views(plist.push(self.token_to_nodes@[ti as int].1@.last()))
                            =~= token_views(plist).push(node_id@));
                        assert(self.token_to_nodes@ =~= tpre.update(
                            ti as int,
                            self.token_to_nodes@[ti as int],
                        ));
                        lemma_list_update(tpre, ti as int, self.token_to_nodes@[ti as int]);
                    }
                },
                None => {
                    let ghost tpre = self.token_to_nodes@;
                    let mut list: Vec<String> = Vec::new();
                    list.push(node_id.clone());
                    self.token_to_nodes.push((token.clone(), list));
                    proof {
                        assert(self.token_to_nodes@.drop_last() =~= tpre);
                        assert(token_views(self.token_to_nodes@.last().1@) =~= seq![node_id@]);
                    }
                },
            }
            j += 1;
        }
        proof {
            assert(toks.skip(tokens@.len() as int) =~= Seq::<Seq<char>>::empty());
            assert(self.contents() =~= old(self).contents().remove(node_id@).insert(
                node_id@,
                content@,
            ));
            assert(self.docs() =~= old(self).docs().remove(node_id@).insert(
                node_id@,
                token_views(tokens@),
            ));
        }
    }

    /// The document ids a token is listed under, in listing order; empty
    /// for an unknown token.
    pub fn nodes_for_token(&self, token: &String) -> (r: Vec<String>)
        requires
            self.wf(),
        ensures
            self.tokens().dom().contains(token@) ==> ({
                let stored = self.tokens()[token@];
                r@.len() == stored.len() && forall|i: int|
                    0 <= i < r@.len() ==> (#[trigger] r@[i])@ == stored[i]
            }),
            !self.tokens().dom().contains(token@) ==> r@.len() == 0,
    {
        let found = Self::list_find(&self.token_to_nodes, token);
        proof {
            lemma_list_dom(self.token_to_nodes@, token@);
        }
        match found {
            Some(i) => {
                proof {
                    lemma_list_index(self.token_to_nodes@, i as int);
                }
                let list = &self.token_to_nodes[i].1;
                let mut out: Vec<String> = Vec::new();
                let mut j: usize = 0;
                while j < list.len()
                    invariant
                        j <= list@.len(),
                        out@.len() == j,
                        forall|k: int| 0 <= k < j ==> (#[trigger] out@[k])@ == list@[k]@,
                    decreases list@.len() - j,
                {
                    out.push(list[j].clone());
                    j += 1;
                }
                proof {
                    assert(forall|k: int|
                        0 <= k < list@.len() ==> token_views(list@)[k] == (#[trigger] list@[k])@);
                }
                out
            },
            None => Vec::new(),
        }
    }

    /// How often a token occurs in a document's token list: its term
    /// frequency; zero for an unknown document.
    pub fn token_count_in_node(&self, node_id: &String, token: &String) -> (r: usize)
        requires
            self.wf(),
        ensures
            self.docs().dom().contains(node_id@) ==> r == self.docs()[node_id@].filter(
                eq_pred(token@),
            ).len(),
            !self.docs().dom().contains(node_id@) ==> r == 0,
    {
        let found = Self::list_find(&self.node_to_tokens, node_id);
        proof {
            lemma_list_dom(self.node_to_tokens@, node_id@);
        }
        match found {
            Some(i) => {
                proof {
                    lemma_list_index(self.node_to_tokens@, i as int);
                }
                let list = &self.node_to_tokens[i].1;
                let ghost pred = eq_pred(token@);
                let mut count: usize = 0;
                let mut j: usize = 0;
                while j < list.len()
                    invariant
                        j <= list@.len(),
                        pred == eq_pred(token@),
                        count == token_views(list@.take(j as int)).filter(pred).len(),
                        count <= j,
                    decreases list@.len() - j,
                {
                    proof {
                        assert(list@.take(j + 1) =~= list@.take(j as int).push(list@[j as int]));
                        assert(token_views(list@.take(j + 1)) =~= token_views(
                            list@.take(j as int),
                        ).push(list@[j as int]@));
                        crate::spatial::lemma_filter_push(
                            token_views(list@.take(j as int)),
                            list@[j as int]@,
                            pred,
                        );
                    }
                    if list[j] == *token {
                        count += 1;
                    }
                    j += 1;
                }
                proof {
                    assert(list@.take(list@.len() as int) =~= list@);
                }
                count
            },
            None => 0,
        }
    }

    /// Number of indexed documents.
    pub fn doc_count(&self) -> (r: usize)
        requires
            self.wf(),
        ensures
            r == self.contents().dom().len(),
    {
        proof {
            lemma_content_len(self.node_to_content@);
        }
        self.node_to_content.len()
    }

    /// Discard everything.
    pub fn clear(&mut self)
        ensures
            final(self).wf(),
            final(self).tokens() =~= Map::<Seq<char>, Seq<Seq<char>>>::empty(),
            final(self).docs() =~= Map::<Seq<char>, Seq<Seq<char>>>::empty(),
            final(self).contents() =~= Map::<Seq<char>, Seq<char>>::empty(),
    {
        self.token_to_nodes.clear();
        self.node_to_tokens.clear();
        self.node_to_content.clear();
    }
}

proof fn lemma_content_len(s: Seq<(String, String)>)
    requires
        content_keys_unique(s),
    ensures
        content_map(s).dom().finite(),
        content_map(s).dom().len() == s.len(),
    decreases s.len(),
{
    if s.len() > 0 {
        assert(content_keys_unique(s.drop_last()));
        lemma_content_len(s.drop_last());
        lemma_content_dom(s.drop_last(), s.last().0@);
        assert(forall|i: int|
            0 <= i < s.drop_last().len() ==> (#[trigger] s.drop_last()[i]).0@ != s.last().0@);
        assert(!content_map(s.drop_last()).dom().contains(s.last().0@));
    }
}

} // verus!
