//! JSON Pointer handling: segment escaping, pointer tokenization, resolution
//! against a document, and path-based replacement.

use vstd::prelude::*;
use crate::json::{JsonValue, JsonView, arr_view, obj_view, lemma_arr_view, lemma_obj_view, wf_view};
use crate::strutil::{is_digit, all_digits, digits_val, lemma_digits_val_monotone, str_to_chars};
use crate::outside::chars_to_string;

verus! {

/// The views of a sequence of strings.
pub open spec fn strs_view(v: Seq<String>) -> Seq<Seq<char>> {
    Seq::new(v.len(), |i: int| v[i]@)
}

/// The escaping of one character inside a pointer segment.
pub open spec fn esc_char(c: char) -> Seq<char> {
    if c == '~' {
        seq!['~', '0']
    } else if c == '/' {
        seq!['~', '1']
    } else {
        seq![c]
    }
}

/// The escaping of a raw key: `~` becomes `~0` and `/` becomes `~1`.
pub open spec fn escape_seq(s: Seq<char>) -> Seq<char>
    decreases s.len(),
{
    if s.len() == 0 {
        Seq::empty()
    } else {
        esc_char(s[0]) + escape_seq(s.drop_first())
    }
}

/// The standard unescape of a pointer segment: `~1` becomes `/` and `~0`
/// becomes `~`, scanning left to right.
pub open spec fn unescape_seq(s: Seq<char>) -> Seq<char>
    decreases s.len(),
{
    if s.len() == 0 {
        Seq::empty()
    } else if s.len() >= 2 && s[0] == '~' && s[1] == '1' {
        seq!['/'] + unescape_seq(s.skip(2))
    } else if s.len() >= 2 && s[0] == '~' && s[1] == '0' {
        seq!['~'] + unescape_seq(s.skip(2))
    } else {
        seq![s[0]] + unescape_seq(s.drop_first())
    }
}

proof fn lemma_escape_push(s: Seq<char>, c: char)
    ensures
        escape_seq(s.push(c)) == escape_seq(s) + esc_char(c),
    decreases s.len(),
{
    if s.len() == 0 {
        assert(s.push(c)[0] == c);
        assert(s.push(c).drop_first() =~= Seq::<char>::empty());
        assert(s =~= Seq::<char>::empty());
        assert(escape_seq(s.push(c)) == esc_char(c) + escape_seq(s.push(c).drop_first()));
        assert(escape_seq(s.push(c)) =~= escape_seq(s) + esc_char(c));
    } else {
        assert(s.push(c)[0] == s[0]);
        assert(s.push(c).drop_first() =~= s.drop_first().push(c));
        lemma_escape_push(s.drop_first(), c);
        assert(escape_seq(s.push(c)) =~= escape_seq(s) + esc_char(c));
    }
}

/// Escapes one key for use as a JSON Pointer segment.
pub fn escape_pointer_token(raw: &str) -> (r: String)
    ensures
        r@ == escape_seq(raw@),
{
    let cs = str_to_chars(raw);
    let mut out: Vec<char> = Vec::new();
    let mut i: usize = 0;
    while i < cs.len()
        invariant
            0 <= i <= cs@.len(),
            cs@ == raw@,
            out@ == escape_seq(cs@.subrange(0, i as int)),
        decreases cs@.len() - i,
    {
        let c = cs[i];
        if c == '~' {
            out.push('~');
            out.push('0');
        } else if c == '/' {
            out.push('~');
            out.push('1');
        } else {
            out.push(c);
        }
        proof {
            lemma_escape_push(cs@.subrange(0, i as int), cs@[i as int]);
            assert(cs@.subrange(0, i as int).push(cs@[i as int]) =~= cs@.subrange(
                0,
                i + 1 as int,
            ));
            assert(out@ =~= escape_seq(cs@.subrange(0, i as int)) + esc_char(cs@[i as int]));
        }
        i = i + 1;
    }
    assert(cs@.subrange(0, cs@.len() as int) =~= cs@);
    chars_to_string(&out)
}

/// Unescaping recovers the exact key that was escaped.
pub proof fn lemma_escape_round_trip(s: Seq<char>)
    ensures
        unescape_seq(escape_seq(s)) == s,
    decreases s.len(),
{
    if s.len() == 0 {
        assert(unescape_seq(escape_seq(s)) =~= s);
    } else {
        lemma_escape_round_trip(s.drop_first());
        let e = escape_seq(s.drop_first());
        let c = s[0];
        if c == '~' {
            assert(escape_seq(s) =~= seq!['~', '0'] + e);
            assert((seq!['~', '0'] + e).skip(2) =~= e);
            assert(unescape_seq(escape_seq(s)) =~= s);
        } else if c == '/' {
            assert(escape_seq(s) =~= seq!['~', '1'] + e);
            assert((seq!['~', '1'] + e).skip(2) =~= e);
            assert(unescape_seq(escape_seq(s)) =~= s);
        } else {
            assert(escape_seq(s) =~= seq![c] + e);
            let w = seq![c] + e;
            assert(w[0] == c);
            assert(w.drop_first() =~= e);
            if w.len() >= 2 && w[0] == '~' && (w[1] == '1' || w[1] == '0') {
                assert(false);
            }
            assert(unescape_seq(escape_seq(s)) =~= s);
        }
    }
}

/// Two different keys escape to different segments.
pub proof fn lemma_escape_injective(a: Seq<char>, b: Seq<char>)
    requires
        a != b,
    ensures
        escape_seq(a) != escape_seq(b),
{
    lemma_escape_round_trip(a);
    lemma_escape_round_trip(b);
}

/// The index of the first separator in `s`, or the length if there is none.
pub open spec fn first_slash(s: Seq<char>) -> int
    decreases s.len(),
{
    if s.len() == 0 {
        0
    } else if s[0] == '/' {
        0
    } else {
        1 + first_slash(s.drop_first())
    }
}

proof fn lemma_first_slash(s: Seq<char>)
    ensures
        0 <= first_slash(s) <= s.len(),
        first_slash(s) < s.len() ==> s[first_slash(s)] == '/',
        forall|k: int| 0 <= k < first_slash(s) ==> s[k] != '/',
    decreases s.len(),
{
    if s.len() > 0 && s[0] != '/' {
        lemma_first_slash(s.drop_first());
        assert forall|k: int| 0 <= k < first_slash(s) implies s[k] != '/' by {
            if k > 0 {
                assert(s.drop_first()[k - 1] == s[k]);
            }
        }
        if first_slash(s) < s.len() {
            assert(s.drop_first()[first_slash(s) - 1] == s[first_slash(s)]);
        }
    }
}

/// An escaped segment never contains a separator.
proof fn lemma_escape_no_slash(s: Seq<char>)
    ensures
        forall|i: int| 0 <= i < escape_seq(s).len() ==> escape_seq(s)[i] != '/',
    decreases s.len(),
{
    if s.len() > 0 {
        lemma_escape_no_slash(s.drop_first());
        assert forall|i: int| 0 <= i < escape_seq(s).len() implies escape_seq(s)[i]
            != '/' by {
            let h = esc_char(s[0]);
            assert(escape_seq(s) == h + escape_seq(s.drop_first()));
            if i >= h.len() {
                assert(escape_seq(s)[i] == escape_seq(s.drop_first())[i - h.len()]);
            }
        }
    }
}

/// A segment without separators or escapes unescapes to itself.
proof fn lemma_unescape_plain(s: Seq<char>)
    requires
        forall|i: int| 0 <= i < s.len() ==> s[i] != '~',
    ensures
        unescape_seq(s) == s,
    decreases s.len(),
{
    if s.len() > 0 {
        assert(forall|i: int| 0 <= i < s.drop_first().len() ==> s.drop_first()[i] != '~');
        lemma_unescape_plain(s.drop_first());
        assert(unescape_seq(s) =~= s);
    }
}

/// The unescaped segments of the text after the leading separator.
pub open spec fn split_tokens(s: Seq<char>) -> Seq<Seq<char>>
    decreases s.len(),
{
    let j = first_slash(s);
    if j < 0 || j >= s.len() {
        seq![unescape_seq(s)]
    } else {
        seq![unescape_seq(s.subrange(0, j))] + split_tokens(s.skip(j + 1))
    }
}

/// The reference tokens of a pointer: the empty pointer has none, a pointer
/// not starting with a separator is invalid, and otherwise the text after
/// the leading separator is split on separators and each segment unescaped.
pub open spec fn ptr_tokens(p: Seq<char>) -> Option<Seq<Seq<char>>> {
    if p.len() == 0 {
        Some(Seq::empty())
    } else if p[0] != '/' {
        None
    } else {
        Some(split_tokens(p.skip(1)))
    }
}

/// Appending a separator and a separator-free segment adds one token.
proof fn lemma_split_append(s: Seq<char>, x: Seq<char>)
    requires
        forall|i: int| 0 <= i < x.len() ==> x[i] != '/',
    ensures
        split_tokens(s + seq!['/'] + x) == split_tokens(s).push(unescape_seq(x)),
    decreases s.len(),
{
    let w = s + seq!['/'] + x;
    let j = first_slash(s);
    lemma_first_slash(s);
    lemma_first_slash_of(x, x.len() as int);
    assert forall|k: int| 0 <= k < j implies w[k] != '/' by {
        assert(w[k] == s[k]);
    }
    if j == s.len() {
        assert(w[j] == '/');
        lemma_first_slash_of(w, j);
        assert(w.subrange(0, j) =~= s);
        assert(w.skip(j + 1) =~= x);
        assert(split_tokens(w) =~= seq![unescape_seq(s)] + split_tokens(x));
        assert(split_tokens(x) =~= seq![unescape_seq(x)]);
        assert(split_tokens(s) =~= seq![unescape_seq(s)]);
        assert(split_tokens(w) =~= split_tokens(s).push(unescape_seq(x)));
    } else {
        assert(w[j] == s[j]);
        lemma_first_slash_of(w, j);
        assert(w.subrange(0, j) =~= s.subrange(0, j));
        assert(w.skip(j + 1) =~= s.skip(j + 1) + seq!['/'] + x);
        lemma_split_append(s.skip(j + 1), x);
        assert(split_tokens(w) =~= seq![unescape_seq(s.subrange(0, j))] + split_tokens(
            s.skip(j + 1),
        ).push(unescape_seq(x)));
        assert(split_tokens(s) =~= seq![unescape_seq(s.subrange(0, j))] + split_tokens(
            s.skip(j + 1),
        ));
        assert(split_tokens(w) =~= split_tokens(s).push(unescape_seq(x)));
    }
}

/// A pointer extended by a separator and an escaped key has exactly one
/// more reference token: the raw key.
pub proof fn lemma_tokens_append(p: Seq<char>, k: Seq<char>)
    requires
        ptr_tokens(p) is Some,
    ensures
        ptr_tokens(p + "/"@ + escape_seq(k)) == Some(ptr_tokens(p)->Some_0.push(k)),
{
    reveal_strlit("/");
    let w = p + "/"@ + escape_seq(k);
    lemma_escape_no_slash(k);
    lemma_escape_round_trip(k);
    lemma_first_slash_of(escape_seq(k), escape_seq(k).len() as int);
    if p.len() == 0 {
        assert(w[0] == '/');
        assert(w.skip(1) =~= escape_seq(k));
        assert(split_tokens(escape_seq(k)) =~= seq![unescape_seq(escape_seq(k))]);
        assert(ptr_tokens(w) == Some(seq![k]));
        assert(ptr_tokens(p)->Some_0.push(k) =~= seq![k]);
    } else {
        assert(p[0] == '/');
        assert(w[0] == '/');
        assert(w.skip(1) =~= p.skip(1) + seq!['/'] + escape_seq(k));
        lemma_split_append(p.skip(1), escape_seq(k));
    }
}

/// Resolving one more token steps from the resolved value into the child
/// that token selects.
pub proof fn lemma_resolve_snoc(d: JsonView, toks: Seq<Seq<char>>, tok: Seq<char>)
    ensures
        resolve(d, toks.push(tok)) == (match resolve(d, toks) {
            Some(v) => match v {
                JsonView::Obj(es) => match find_key(es, tok) {
                    Some(i) => Some(es[i].1),
                    None => None,
                },
                JsonView::Arr(a) => match idx_parse(tok) {
                    Some(i) => if i < a.len() {
                        Some(a[i])
                    } else {
                        None
                    },
                    None => None,
                },
                _ => None,
            },
            None => None,
        }),
    decreases toks.len(),
{
    let ext = toks.push(tok);
    if toks.len() == 0 {
        assert(ext[0] == tok);
        assert(ext.drop_first() =~= Seq::<Seq<char>>::empty());
        match d {
            JsonView::Obj(es) => {
                match find_key(es, tok) {
                    Some(i) => {
                        lemma_find_key(es, tok);
                        assert(resolve(es[i].1, ext.drop_first()) == Some(es[i].1));
                    },
                    None => {},
                }
            },
            JsonView::Arr(a) => {
                match idx_parse(tok) {
                    Some(i) => {
                        if i < a.len() {
                            assert(resolve(a[i], ext.drop_first()) == Some(a[i]));
                        }
                    },
                    None => {},
                }
            },
            _ => {},
        }
    } else {
        assert(ext[0] == toks[0]);
        assert(ext.drop_first() =~= toks.drop_first().push(tok));
        match d {
            JsonView::Obj(es) => {
                match find_key(es, toks[0]) {
                    Some(i) => {
                        lemma_find_key(es, toks[0]);
                        lemma_resolve_snoc(es[i].1, toks.drop_first(), tok);
                    },
                    None => {},
                }
            },
            JsonView::Arr(a) => {
                match idx_parse(toks[0]) {
                    Some(i) => {
                        if i < a.len() {
                            lemma_resolve_snoc(a[i], toks.drop_first(), tok);
                        }
                    },
                    None => {},
                }
            },
            _ => {},
        }
    }
}

/// The array index a reference token denotes: digits only, no sign, no
/// leading zero (except `0` itself), and fitting in `usize`.
pub open spec fn idx_parse(t: Seq<char>) -> Option<int> {
    if t.len() == 0 {
        None
    } else if t[0] == '+' {
        None
    } else if t[0] == '0' && t.len() != 1 {
        None
    } else if all_digits(t) && digits_val(t) <= usize::MAX {
        Some(digits_val(t) as int)
    } else {
        None
    }
}

/// With distinct keys, looking an entry's own key up finds that entry.
pub proof fn lemma_find_key_at(es: Seq<(Seq<char>, JsonView)>, i: int)
    requires
        0 <= i < es.len(),
        forall|a: int, b: int| 0 <= a < b < es.len() ==> (#[trigger] es[a]).0 != (
        #[trigger] es[b]).0,
    ensures
        find_key(es, es[i].0) == Some(i),
{
    lemma_find_key(es, es[i].0);
    match find_key(es, es[i].0) {
        Some(m) => {
            if m != i {
                assert(es[m].0 == es[i].0);
                assert(false);
            }
        },
        None => {
            assert(es[i].0 != es[i].0);
        },
    }
}

/// A decimal rendering parses back to the same index.
pub proof fn lemma_idx_parse_dec(i: int)
    requires
        0 <= i <= usize::MAX,
    ensures
        idx_parse(crate::strutil::dec_digits(i as nat)) == Some(i),
{
    crate::strutil::lemma_dec_digits(i as nat);
    let t = crate::strutil::dec_digits(i as nat);
    assert(is_digit(t[0]));
    assert(t[0] != '+');
    if i == 0 {
        assert(t.len() == 1);
    } else {
        assert(t[0] != '0');
    }
}

/// The first entry of an object with the given key.
pub open spec fn find_key(es: Seq<(Seq<char>, JsonView)>, k: Seq<char>) -> Option<int>
    decreases es.len(),
{
    if es.len() == 0 {
        None
    } else if es[0].0 == k {
        Some(0int)
    } else {
        match find_key(es.drop_first(), k) {
            Some(i) => Some(i + 1),
            None => None,
        }
    }
}

pub proof fn lemma_find_key(es: Seq<(Seq<char>, JsonView)>, k: Seq<char>)
    ensures
        match find_key(es, k) {
            Some(i) => 0 <= i < es.len() && es[i].0 == k && forall|m: int|
                0 <= m < i ==> (#[trigger] es[m]).0 != k,
            None => forall|m: int| 0 <= m < es.len() ==> (#[trigger] es[m]).0 != k,
        },
    decreases es.len(),
{
    if es.len() > 0 && es[0].0 != k {
        lemma_find_key(es.drop_first(), k);
        assert(forall|m: int|
            0 < m < es.len() ==> (#[trigger] es[m]) == es.drop_first()[m - 1]);
    }
}

/// Resolving a token path against a document.
pub open spec fn resolve(j: JsonView, toks: Seq<Seq<char>>) -> Option<JsonView>
    decreases toks.len(),
{
    if toks.len() == 0 {
        Some(j)
    } else {
        match j {
            JsonView::Obj(es) => match find_key(es, toks[0]) {
                Some(i) => resolve(es[i].1, toks.drop_first()),
                None => None,
            },
            JsonView::Arr(items) => match idx_parse(toks[0]) {
                Some(i) => if i < items.len() {
                    resolve(items[i], toks.drop_first())
                } else {
                    None
                },
                None => None,
            },
            _ => None,
        }
    }
}

/// Replacing the value a token path resolves to; a path that does not
/// resolve leaves the document unchanged.
pub open spec fn set_at(j: JsonView, toks: Seq<Seq<char>>, nv: JsonView) -> JsonView
    decreases toks.len(),
{
    if toks.len() == 0 {
        nv
    } else {
        match j {
            JsonView::Obj(es) => match find_key(es, toks[0]) {
                Some(i) => JsonView::Obj(
                    es.update(i, (es[i].0, set_at(es[i].1, toks.drop_first(), nv))),
                ),
                None => j,
            },
            JsonView::Arr(items) => match idx_parse(toks[0]) {
                Some(i) => if i < items.len() {
                    JsonView::Arr(items.update(i, set_at(items[i], toks.drop_first(), nv)))
                } else {
                    j
                },
                None => j,
            },
            _ => j,
        }
    }
}

/// After a replacement along a path that resolves, the same path resolves to
/// the new value.
pub proof fn lemma_resolve_set(j: JsonView, toks: Seq<Seq<char>>, nv: JsonView)
    requires
        resolve(j, toks) is Some,
    ensures
        resolve(set_at(j, toks, nv), toks) == Some(nv),
    decreases toks.len(),
{
    if toks.len() > 0 {
        match j {
            JsonView::Obj(es) => {
                let i = find_key(es, toks[0])->Some_0;
                lemma_find_key(es, toks[0]);
                let es2 = es.update(i, (es[i].0, set_at(es[i].1, toks.drop_first(), nv)));
                lemma_find_key_update(es, toks[0], i, set_at(es[i].1, toks.drop_first(), nv));
                assert(find_key(es2, toks[0]) == Some(i));
                lemma_resolve_set(es[i].1, toks.drop_first(), nv);
            },
            JsonView::Arr(items) => {
                let i = idx_parse(toks[0])->Some_0;
                lemma_resolve_set(items[i], toks.drop_first(), nv);
            },
            _ => {},
        }
    }
}

/// Updating the entry at the found index with the same key does not change
/// where the key is found.
proof fn lemma_find_key_update(
    es: Seq<(Seq<char>, JsonView)>,
    k: Seq<char>,
    i: int,
    nv: JsonView,
)
    requires
        find_key(es, k) == Some(i),
    ensures
        find_key(es.update(i, (es[i].0, nv)), k) == Some(i),
    decreases es.len(),
{
    lemma_find_key(es, k);
    let es2 = es.update(i, (es[i].0, nv));
    if i == 0 {
        assert(es2[0].0 == k);
    } else {
        assert(es[0].0 != k);
        assert(es2[0] == es[0]);
        assert(es.drop_first().update(i - 1, (es.drop_first()[i - 1].0, nv)) =~= es2.drop_first());
        assert(find_key(es.drop_first(), k) == Some(i - 1));
        lemma_find_key_update(es.drop_first(), k, i - 1, nv);
    }
}

/// Resolving a pointer text against a document: tokenize, then resolve.
pub open spec fn locate(d: JsonView, p: Seq<char>) -> Option<JsonView> {
    match ptr_tokens(p) {
        Some(toks) => resolve(d, toks),
        None => None,
    }
}

fn unescape_range(s: &Vec<char>, i: usize, j: usize) -> (r: Vec<char>)
    requires
        i <= j <= s@.len(),
    ensures
        r@ == unescape_seq(s@.subrange(i as int, j as int)),
{
    let mut out: Vec<char> = Vec::new();
    let mut pos: usize = i;
    while pos < j
        invariant
            i <= pos <= j <= s@.len(),
            unescape_seq(s@.subrange(i as int, j as int)) == out@ + unescape_seq(
                s@.subrange(pos as int, j as int),
            ),
        decreases j - pos,
    {
        let ghost rem = s@.subrange(pos as int, j as int);
        assert(rem[0] == s@[pos as int]);
        if s[pos] == '~' && pos + 1 < j && (s[pos + 1] == '1' || s[pos + 1] == '0') {
            assert(rem[1] == s@[pos + 1]);
            if s[pos + 1] == '1' {
                out.push('/');
            } else {
                out.push('~');
            }
            proof {
                assert(rem.skip(2) =~= s@.subrange(pos + 2, j as int));
                assert(unescape_seq(rem) == seq![
                    if s@[pos + 1] == '1' {
                        '/'
                    } else {
                        '~'
                    },
                ] + unescape_seq(s@.subrange(pos + 2, j as int)));
                assert(unescape_seq(s@.subrange(i as int, j as int)) =~= out@ + unescape_seq(
                    s@.subrange(pos + 2, j as int),
                ));
            }
            pos = pos + 2;
        } else {
            out.push(s[pos]);
            proof {
                assert(rem.drop_first() =~= s@.subrange(pos + 1, j as int));
                if rem.len() >= 2 && rem[0] == '~' && (rem[1] == '1' || rem[1] == '0') {
                    assert(false);
                }
                assert(unescape_seq(rem) == seq![rem[0]] + unescape_seq(
                    s@.subrange(pos + 1, j as int),
                ));
                assert(unescape_seq(s@.subrange(i as int, j as int)) =~= out@ + unescape_seq(
                    s@.subrange(pos + 1, j as int),
                ));
            }
            pos = pos + 1;
        }
    }
    proof {
        assert(s@.subrange(j as int, j as int) =~= Seq::<char>::empty());
        assert(unescape_seq(Seq::<char>::empty()) =~= Seq::<char>::empty());
        assert(out@ + Seq::<char>::empty() =~= out@);
    }
    out
}

/// A position `j` before which there is no separator, and which is the end
/// or a separator itself, is where the first separator search lands.
proof fn lemma_first_slash_of(s: Seq<char>, j: int)
    requires
        0 <= j <= s.len(),
        forall|k: int| 0 <= k < j ==> s[k] != '/',
        j < s.len() ==> s[j] == '/',
    ensures
        first_slash(s) == j,
    decreases j,
{
    if j > 0 {
        assert(s[0] != '/');
        assert forall|k: int| 0 <= k < j - 1 implies s.drop_first()[k] != '/' by {
            assert(s.drop_first()[k] == s[k + 1]);
        }
        if j - 1 < s.drop_first().len() {
            assert(s.drop_first()[j - 1] == s[j]);
        }
        lemma_first_slash_of(s.drop_first(), j - 1);
    } else {
        if s.len() > 0 {
            assert(s[0] == '/');
        }
    }
}

/// Splits a pointer into its unescaped reference tokens; an invalid pointer
/// yields nothing.
pub fn parse_pointer(p: &str) -> (r: Option<Vec<String>>)
    ensures
        match r {
            Some(v) => ptr_tokens(p@) == Some(strs_view(v@)),
            None => ptr_tokens(p@) is None,
        },
{
    let cs = str_to_chars(p);
    if cs.len() == 0 {
        let v: Vec<String> = Vec::new();
        assert(strs_view(v@) =~= Seq::<Seq<char>>::empty());
        return Some(v);
    }
    if cs[0] != '/' {
        return None;
    }
    let n = cs.len();
    let ghost rest = cs@.skip(1);
    let mut toks: Vec<String> = Vec::new();
    let mut pos: usize = 1;
    loop
        invariant
            1 <= pos <= n,
            n == cs@.len(),
            n >= 1,
            cs@ == p@,
            cs@[0] == '/',
            rest == cs@.skip(1),
            split_tokens(rest) == strs_view(toks@) + split_tokens(
                cs@.subrange(pos as int, n as int),
            ),
        decreases n - pos,
    {
        let ghost seg0 = cs@.subrange(pos as int, n as int);
        let mut j: usize = pos;
        while j < n && cs[j] != '/'
            invariant
                pos <= j <= n,
                n == cs@.len(),
                forall|k: int| pos <= k < j ==> cs@[k] != '/',
            decreases n - j,
        {
            j = j + 1;
        }
        proof {
            assert forall|k: int| 0 <= k < j - pos implies seg0[k] != '/' by {
                assert(seg0[k] == cs@[pos + k]);
            }
            if j < n {
                assert(seg0[j - pos] == cs@[j as int]);
            }
            lemma_first_slash_of(seg0, j - pos as int);
        }
        let tok = unescape_range(&cs, pos, j);
        let tok_s = chars_to_string(&tok);
        toks.push(tok_s);
        proof {
            assert(cs@.subrange(pos as int, n as int).subrange(0, j - pos as int) =~= cs@.subrange(
                pos as int,
                j as int,
            ));
        }
        if j == n {
            proof {
                assert(split_tokens(seg0) =~= seq![unescape_seq(cs@.subrange(pos as int, j as int))]);
                assert(strs_view(toks@) =~= strs_view(toks@.drop_last()) + seq![
                    unescape_seq(cs@.subrange(pos as int, j as int)),
                ]);
                assert(split_tokens(rest) =~= strs_view(toks@));
                assert(ptr_tokens(p@) == Some(strs_view(toks@)));
            }
            return Some(toks);
        }
        proof {
            assert(seg0.skip(j - pos + 1) =~= cs@.subrange(j + 1 as int, n as int));
            assert(split_tokens(seg0) =~= seq![unescape_seq(cs@.subrange(pos as int, j as int))]
                + split_tokens(cs@.subrange(j + 1 as int, n as int)));
            assert(strs_view(toks@) =~= strs_view(toks@.drop_last()) + seq![
                unescape_seq(cs@.subrange(pos as int, j as int)),
            ]);
            assert(split_tokens(rest) =~= strs_view(toks@) + split_tokens(
                cs@.subrange(j + 1 as int, n as int),
            ));
        }
        pos = j + 1;
    }
}

/// Parses a reference token as an array index, with the strict rules: no
/// sign, no leading zero, and the value must fit.
pub fn parse_index_token(t: &str) -> (r: Option<usize>)
    ensures
        match r {
            Some(v) => idx_parse(t@) == Some(v as int),
            None => idx_parse(t@) is None,
        },
{
    let cs = str_to_chars(t);
    if cs.len() == 0 {
        return None;
    }
    if cs[0] == '+' {
        return None;
    }
    if cs[0] == '0' && cs.len() != 1 {
        return None;
    }
    let mut acc: u128 = 0;
    let mut i: usize = 0;
    let bound: u128 = usize::MAX as u128;
    while i < cs.len()
        invariant
            0 <= i <= cs@.len(),
            cs@.len() > 0,
            cs@ == t@,
            cs@[0] != '+',
            !(cs@[0] == '0' && cs@.len() != 1),
            all_digits(cs@.subrange(0, i as int)),
            acc == digits_val(cs@.subrange(0, i as int)),
            acc <= bound,
            bound == usize::MAX as u128,
        decreases cs@.len() - i,
    {
        let c = cs[i];
        let d: u64 = match c {
            '0' => 0,
            '1' => 1,
            '2' => 2,
            '3' => 3,
            '4' => 4,
            '5' => 5,
            '6' => 6,
            '7' => 7,
            '8' => 8,
            '9' => 9,
            _ => 10,
        };
        if d == 10 {
            assert(!is_digit(cs@[i as int]));
            return None;
        }
        assert(is_digit(c) && digit_matches(c, d));
        acc = acc * 10 + (d as u128);
        i = i + 1;
        assert(cs@.subrange(0, i as int).drop_last() =~= cs@.subrange(0, i - 1));
        assert(cs@.subrange(0, i as int).last() == c);
        if acc > bound {
            proof {
                lemma_digits_val_monotone(cs@, i as int);
                assert(cs@.subrange(0, cs@.len() as int) =~= cs@);
            }
            return None;
        }
    }
    assert(cs@.subrange(0, cs@.len() as int) =~= cs@);
    Some(acc as usize)
}

/// The digit value a character carries.
pub open spec fn digit_matches(c: char, d: u64) -> bool {
    crate::strutil::digit_val(c) == d as nat
}

/// Finds the value a pointer path leads to inside a document.
pub fn resolve_in<'a>(root: &'a JsonValue, toks: &Vec<String>) -> (r: Option<&'a JsonValue>)
    ensures
        match r {
            Some(v) => resolve(root@, strs_view(toks@)) == Some(v@),
            None => resolve(root@, strs_view(toks@)) is None,
        },
{
    let ghost full = strs_view(toks@);
    assert(full.skip(0) =~= full);
    let mut cur: &JsonValue = root;
    let mut t: usize = 0;
    while t < toks.len()
        invariant
            0 <= t <= toks@.len(),
            full == strs_view(toks@),
            resolve(root@, full) == resolve(cur@, full.skip(t as int)),
        decreases toks@.len() - t,
    {
        let ghost rem = full.skip(t as int);
        assert(rem[0] == toks@[t as int]@);
        assert(rem.drop_first() =~= full.skip(t + 1 as int));
        match cur {
            JsonValue::Obj(entries) => {
                proof {
                    lemma_obj_view(entries@);
                }
                let ghost es = obj_view(entries@);
                let mut m: usize = 0;
                let mut found: Option<usize> = None;
                while m < entries.len()
                    invariant
                        t < toks@.len() <= usize::MAX,
                        0 <= m <= entries@.len(),
                        es == obj_view(entries@),
                        es.len() == entries@.len(),
                        forall|q: int|
                            0 <= q < es.len() ==> (#[trigger] es[q]) == (entries@[q].0@,
                            entries@[q].1@),
                        match found {
                            Some(fi) => fi < m && es[fi as int].0 == toks@[t as int]@ && forall|
                                q: int,
                            |
                                0 <= q < fi ==> (#[trigger] es[q]).0 != toks@[t as int]@,
                            None => forall|q: int|
                                0 <= q < m ==> (#[trigger] es[q]).0 != toks@[t as int]@,
                        },
                        found is Some ==> m == entries@.len(),
                    decreases entries@.len() - m + (if found is Some {
                        0int
                    } else {
                        1int
                    }),
                {
                    if entries[m].0.eq(&toks[t]) {
                        found = Some(m);
                        m = entries.len();
                    } else {
                        m = m + 1;
                    }
                }
                proof {
                    lemma_find_key(es, toks@[t as int]@);
                }
                match found {
                    Some(fi) => {
                        proof {
                            match find_key(es, toks@[t as int]@) {
                                Some(i) => {
                                    assert(i == fi as int);
                                },
                                None => {
                                    assert(false);
                                },
                            }
                        }
                        cur = &entries[fi].1;
                        t = t + 1;
                    },
                    None => {
                        assert(find_key(es, toks@[t as int]@) is None);
                        return None;
                    },
                }
            },
            JsonValue::Arr(items) => {
                proof {
                    lemma_arr_view(items@);
                }
                match parse_index_token(toks[t].as_str()) {
                    Some(ix) => {
                        if ix < items.len() {
                            cur = &items[ix];
                            t = t + 1;
                        } else {
                            return None;
                        }
                    },
                    None => {
                        return None;
                    },
                }
            },
            _ => {
                return None;
            },
        }
    }
    assert(full.skip(toks@.len() as int) =~= Seq::<Seq<char>>::empty());
    Some(cur)
}

/// Rebuilds the document with the value at the given path replaced.
pub fn set_in(v: &JsonValue, toks: &Vec<String>, pos: usize, nv: JsonValue) -> (r: JsonValue)
    requires
        pos <= toks@.len(),
    ensures
        r@ == set_at(v@, strs_view(toks@).skip(pos as int), nv@),
    decreases toks@.len() - pos,
{
    let ghost nview = nv@;
    let ghost rem = strs_view(toks@).skip(pos as int);
    if pos == toks.len() {
        assert(rem.len() == 0);
        return nv;
    }
    assert(rem[0] == toks@[pos as int]@);
    assert(rem.drop_first() =~= strs_view(toks@).skip(pos + 1 as int));
    match v {
        JsonValue::Obj(entries) => {
            proof {
                lemma_obj_view(entries@);
            }
            let ghost es = obj_view(entries@);
            let mut m: usize = 0;
            let mut found: Option<usize> = None;
            while m < entries.len()
                invariant
                    pos < toks@.len() <= usize::MAX,
                    0 <= m <= entries@.len(),
                    es == obj_view(entries@),
                    es.len() == entries@.len(),
                    forall|q: int|
                        0 <= q < es.len() ==> (#[trigger] es[q]) == (entries@[q].0@,
                        entries@[q].1@),
                    match found {
                        Some(fi) => fi < m && es[fi as int].0 == toks@[pos as int]@ && forall|
                            q: int,
                        |
                            0 <= q < fi ==> (#[trigger] es[q]).0 != toks@[pos as int]@,
                        None => forall|q: int|
                            0 <= q < m ==> (#[trigger] es[q]).0 != toks@[pos as int]@,
                    },
                    found is Some ==> m == entries@.len(),
                decreases entries@.len() - m + (if found is Some {
                    0int
                } else {
                    1int
                }),
            {
                if entries[m].0.eq(&toks[pos]) {
                    found = Some(m);
                    m = entries.len();
                } else {
                    m = m + 1;
                }
            }
            proof {
                lemma_find_key(es, toks@[pos as int]@);
            }
            match found {
                Some(fi) => {
                    proof {
                        match find_key(es, toks@[pos as int]@) {
                            Some(i) => {
                                assert(i == fi as int);
                            },
                            None => {
                                assert(false);
                            },
                        }
                    }
                    let mut out: Vec<(String, JsonValue)> = Vec::new();
                    let mut k: usize = 0;
                    let ghost target = es.update(
                        fi as int,
                        (es[fi as int].0, set_at(es[fi as int].1, rem.drop_first(), nview)),
                    );
                    let mut hold: Option<JsonValue> = Some(nv);
                    while k < entries.len()
                        invariant
                            0 <= k <= entries@.len(),
                            es == obj_view(entries@),
                            es.len() == entries@.len(),
                            fi < entries@.len(),
                            rem[0] == toks@[pos as int]@,
                            rem.drop_first() =~= strs_view(toks@).skip(pos + 1 as int),
                            pos < toks@.len() <= usize::MAX,
                            forall|q: int|
                                0 <= q < es.len() ==> (#[trigger] es[q]) == (entries@[q].0@,
                                entries@[q].1@),
                            target == es.update(
                                fi as int,
                                (
                                    es[fi as int].0,
                                    set_at(es[fi as int].1, rem.drop_first(), nview),
                                ),
                            ),
                            hold matches Some(h) ==> h@ == nview,
                            k <= fi ==> hold is Some,
                            k > fi ==> hold is None,
                            out@.len() == k,
                            forall|q: int|
                                0 <= q < k ==> ((#[trigger] out@[q]).0@, out@[q].1@) == target[q],
                        decreases entries@.len() - k,
                    {
                        if k == fi {
                            let inner = match hold {
                                Some(h) => h,
                                None => {
                                    proof {
                                        assert(false);
                                    }
                                    JsonValue::Null
                                },
                            };
                            hold = None;
                            let replaced = set_in(&entries[k].1, toks, pos + 1, inner);
                            out.push((entries[k].0.clone(), replaced));
                        } else {
                            let e = &entries[k];
                            out.push((e.0.clone(), e.1.deep_copy()));
                        }
                        k = k + 1;
                    }
                    let r = JsonValue::Obj(out);
                    proof {
                        lemma_obj_view(out@);
                        assert forall|q: int| 0 <= q < out@.len() implies obj_view(out@)[q]
                            == target[q] by {
                            assert((out@[q].0@, out@[q].1@) == target[q]);
                        }
                        assert(obj_view(out@) =~= target);
                    }
                    r
                },
                None => {
                    assert(find_key(es, toks@[pos as int]@) is None);
                    v.deep_copy()
                },
            }
        },
        JsonValue::Arr(items) => {
            proof {
                lemma_arr_view(items@);
            }
            let ghost its = arr_view(items@);
            let parsed = parse_index_token(toks[pos].as_str());
            let in_range = match parsed {
                Some(ix) => ix < items.len(),
                None => false,
            };
            if !in_range {
                return v.deep_copy();
            }
            let fi = match parsed {
                Some(ix) => ix,
                None => 0,
            };
            let ghost target = its.update(fi as int, set_at(its[fi as int], rem.drop_first(), nview));
            let mut out: Vec<JsonValue> = Vec::new();
            let mut k: usize = 0;
            let mut hold: Option<JsonValue> = Some(nv);
            while k < items.len()
                invariant
                    0 <= k <= items@.len(),
                    its == arr_view(items@),
                    its.len() == items@.len(),
                    fi < items@.len(),
                    rem[0] == toks@[pos as int]@,
                    rem.drop_first() =~= strs_view(toks@).skip(pos + 1 as int),
                    pos < toks@.len() <= usize::MAX,
                    forall|q: int| 0 <= q < its.len() ==> (#[trigger] its[q]) == items@[q]@,
                    target == its.update(
                        fi as int,
                        set_at(its[fi as int], rem.drop_first(), nview),
                    ),
                    hold matches Some(h) ==> h@ == nview,
                    k <= fi ==> hold is Some,
                    k > fi ==> hold is None,
                    out@.len() == k,
                    forall|q: int| 0 <= q < k ==> (#[trigger] out@[q])@ == target[q],
                decreases items@.len() - k,
            {
                if k == fi {
                    let inner = match hold {
                        Some(h) => h,
                        None => {
                            proof {
                                assert(false);
                            }
                            JsonValue::Null
                        },
                    };
                    hold = None;
                    let replaced = set_in(&items[k], toks, pos + 1, inner);
                    out.push(replaced);
                } else {
                    out.push(items[k].deep_copy());
                }
                k = k + 1;
            }
            let r = JsonValue::Arr(out);
            proof {
                lemma_arr_view(out@);
                assert forall|q: int| 0 <= q < out@.len() implies arr_view(out@)[q]
                    == target[q] by {
                    assert(out@[q]@ == target[q]);
                }
                assert(arr_view(out@) =~= target);
            }
            r
        },
        _ => {
            v.deep_copy()
        },
    }
}

/// A replacement with a well-formed value keeps the document well-formed.
pub proof fn lemma_set_at_wf(j: JsonView, toks: Seq<Seq<char>>, nv: JsonView)
    requires
        wf_view(j),
        wf_view(nv),
    ensures
        wf_view(set_at(j, toks, nv)),
    decreases toks.len(),
{
    if toks.len() > 0 {
        match j {
            JsonView::Obj(es) => {
                match find_key(es, toks[0]) {
                    Some(i) => {
                        lemma_find_key(es, toks[0]);
                        lemma_set_at_wf(es[i].1, toks.drop_first(), nv);
                        let es2 = es.update(i, (es[i].0, set_at(es[i].1, toks.drop_first(), nv)));
                        assert(forall|m: int| 0 <= m < es2.len() && m != i ==> (#[trigger] es2[m])
                            == es[m]);
                        assert(es2[i].0 == es[i].0);
                        assert(wf_view(JsonView::Obj(es2)));
                    },
                    None => {},
                }
            },
            JsonView::Arr(items) => {
                match idx_parse(toks[0]) {
                    Some(i) => if i < items.len() {
                        lemma_set_at_wf(items[i], toks.drop_first(), nv);
                        let is2 = items.update(i, set_at(items[i], toks.drop_first(), nv));
                        assert(forall|m: int|
                            0 <= m < is2.len() && m != i ==> (#[trigger] is2[m]) == items[m]);
                        assert(wf_view(JsonView::Arr(is2)));
                    },
                    None => {},
                }
            },
            _ => {},
        }
    }
}

} // verus!
