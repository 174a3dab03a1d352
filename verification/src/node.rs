//! The mutation engine and value readout: serializing the value a pointer
//! leads to, in-place scalar edits, subtree replacement, and promotion of a
//! string that itself holds JSON.

use vstd::prelude::*;
use vstd::string::StringExecFns;
use crate::json::{JsonValue, JsonView, wf_view, is_container, scalar_literal_text};
use crate::types::Node;
use crate::state::{AppState, AppStateView};
use crate::pointer::{
    ptr_tokens, resolve, locate, set_at, parse_pointer, resolve_in, set_in, strs_view,
    lemma_resolve_set, lemma_set_at_wf,
};
use crate::tree::path_node_view;
use crate::strutil::{
    int_parse, int_text, is_digit, is_digit_char, trim_seq, trim_chars, str_to_chars,
    parse_i64_chars,
};
use crate::outside::{
    json_min_text, json_pretty_text, json_min_string, json_pretty_string, number_from_text,
    num_norm, int_number_text, parse_json_text, json_parse, chars_to_string,
};

verus! {

/// Every value a well-formed document resolves to is well-formed.
pub proof fn lemma_resolve_wf(d: JsonView, toks: Seq<Seq<char>>)
    requires
        wf_view(d),
        resolve(d, toks) is Some,
    ensures
        wf_view(resolve(d, toks)->Some_0),
    decreases toks.len(),
{
    if toks.len() > 0 {
        match d {
            JsonView::Obj(es) => {
                match crate::pointer::find_key(es, toks[0]) {
                    Some(i) => {
                        crate::pointer::lemma_find_key(es, toks[0]);
                        lemma_resolve_wf(es[i].1, toks.drop_first());
                    },
                    None => {},
                }
            },
            JsonView::Arr(items) => {
                match crate::pointer::idx_parse(toks[0]) {
                    Some(i) => {
                        if i < items.len() {
                            lemma_resolve_wf(items[i], toks.drop_first());
                        }
                    },
                    None => {},
                }
            },
            _ => {},
        }
    }
}

/// Serializes the value a pointer leads to as compact JSON text.
pub fn get_node_value(pointer: String, state: &AppState) -> (r: Result<String, String>)
    ensures
        match r {
            Ok(s) => state@.doc matches Some(d) && locate(d, pointer@) matches Some(v) && s@
                == json_min_text(v) && scalar_literal_text(v, s@),
            Err(e) => (state@.doc is None && e@ == "No document loaded"@) || (
            state@.doc matches Some(d) && locate(d, pointer@) is None && e@
                == "Invalid pointer"@),
        },
{
    let doc = match state.document() {
        Some(d) => d,
        None => {
            return Err(String::from_str("No document loaded"));
        },
    };
    let toks = match parse_pointer(pointer.as_str()) {
        Some(t) => t,
        None => {
            return Err(String::from_str("Invalid pointer"));
        },
    };
    match resolve_in(doc, &toks) {
        Some(v) => {
            proof {
                lemma_resolve_wf(doc@, strs_view(toks@));
            }
            Ok(json_min_string(v))
        },
        None => Err(String::from_str("Invalid pointer")),
    }
}

/// Serializes the value a pointer leads to as pretty-printed JSON text, the
/// form placed on the clipboard.
pub fn node_value_pretty(pointer: String, state: &AppState) -> (r: Result<String, String>)
    ensures
        match r {
            Ok(s) => state@.doc matches Some(d) && locate(d, pointer@) matches Some(v) && s@
                == json_pretty_text(v) && scalar_literal_text(v, s@),
            Err(e) => (state@.doc is None && e@ == "No document loaded"@) || (
            state@.doc matches Some(d) && locate(d, pointer@) is None && e@
                == "Invalid pointer"@),
        },
{
    let doc = match state.document() {
        Some(d) => d,
        None => {
            return Err(String::from_str("No document loaded"));
        },
    };
    let toks = match parse_pointer(pointer.as_str()) {
        Some(t) => t,
        None => {
            return Err(String::from_str("Invalid pointer"));
        },
    };
    match resolve_in(doc, &toks) {
        Some(v) => {
            proof {
                lemma_resolve_wf(doc@, strs_view(toks@));
            }
            Ok(json_pretty_string(v))
        },
        None => Err(String::from_str("Invalid pointer")),
    }
}

/// A case-insensitive boolean literal.
pub open spec fn is_true_lit(s: Seq<char>) -> bool {
    s.len() == 4 && (s[0] == 't' || s[0] == 'T') && (s[1] == 'r' || s[1] == 'R') && (s[2] == 'u'
        || s[2] == 'U') && (s[3] == 'e' || s[3] == 'E')
}

pub open spec fn is_false_lit(s: Seq<char>) -> bool {
    s.len() == 5 && (s[0] == 'f' || s[0] == 'F') && (s[1] == 'a' || s[1] == 'A') && (s[2] == 'l'
        || s[2] == 'L') && (s[3] == 's' || s[3] == 'S') && (s[4] == 'e' || s[4] == 'E')
}

/// Drops redundant leading zeros: a zero followed by another digit carries
/// no value.
pub open spec fn drop_zeros(s: Seq<char>) -> Seq<char>
    decreases s.len(),
{
    if s.len() >= 2 && s[0] == '0' && is_digit(s[1]) {
        drop_zeros(s.drop_first())
    } else {
        s
    }
}

/// Pads with a zero every dot that a digit precedes but no digit follows,
/// so `5.` and `5.e3` take the forms `5.0` and `5.0e3`.
pub open spec fn pad_dots(s: Seq<char>, i: int) -> Seq<char>
    decreases s.len() - i,
{
    if i < 0 || i >= s.len() {
        Seq::empty()
    } else if s[i] == '.' && i > 0 && is_digit(s[i - 1]) && (i + 1 == s.len() || s[i + 1] == 'e'
        || s[i + 1] == 'E') {
        seq!['.', '0'] + pad_dots(s, i + 1)
    } else {
        seq![s[i]] + pad_dots(s, i + 1)
    }
}

/// Brings a float literal of the ordinary form to the JSON number form: a
/// leading plus sign and redundant leading zeros go, a leading dot followed
/// by a digit gains a zero before it, and a trailing or pre-exponent dot
/// gains one after it. Under this preparation the ordinary finite float
/// grammar maps exactly onto the JSON number grammar.
pub open spec fn float_prep(t: Seq<char>) -> Seq<char> {
    let sign: Seq<char> = if t.len() > 0 && t[0] == '-' {
        seq!['-']
    } else {
        Seq::empty()
    };
    let body0 = if t.len() > 0 && (t[0] == '-' || t[0] == '+') {
        t.drop_first()
    } else {
        t
    };
    let body1 = drop_zeros(body0);
    let body2 = if body1.len() >= 2 && body1[0] == '.' && is_digit(body1[1]) {
        seq!['0'] + body1
    } else {
        body1
    };
    sign + pad_dots(body2, 0)
}

/// Prepares the characters of a float literal for the JSON number parse.
pub fn prep_float_chars(t: &Vec<char>) -> (r: Vec<char>)
    ensures
        r@ == float_prep(t@),
{
    let n = t.len();
    let neg = n > 0 && t[0] == '-';
    let mut pos: usize = if n > 0 && (t[0] == '-' || t[0] == '+') {
        1
    } else {
        0
    };
    let ghost body0 = if t@.len() > 0 && (t@[0] == '-' || t@[0] == '+') {
        t@.drop_first()
    } else {
        t@
    };
    assert(body0 =~= t@.subrange(pos as int, n as int));
    while pos < n && pos + 1 < n && t[pos] == '0' && is_digit_char(t[pos + 1])
        invariant
            0 <= pos <= n,
            n == t@.len(),
            drop_zeros(body0) == drop_zeros(t@.subrange(pos as int, n as int)),
        decreases n - pos,
    {
        proof {
            assert(t@.subrange(pos as int, n as int).drop_first() =~= t@.subrange(
                pos + 1,
                n as int,
            ));
        }
        pos = pos + 1;
    }
    proof {
        assert(drop_zeros(t@.subrange(pos as int, n as int)) == t@.subrange(pos as int, n as int));
    }
    let ghost body1 = drop_zeros(body0);
    let mut body: Vec<char> = Vec::new();
    if neg {
        body.push('-');
    }
    let ghost sign = body@;
    if pos < n && pos + 1 < n && t[pos] == '.' && is_digit_char(t[pos + 1]) {
        body.push('0');
    }
    let mut i: usize = pos;
    while i < n
        invariant
            pos <= i <= n,
            n == t@.len(),
            body1 == t@.subrange(pos as int, n as int),
            body@ =~= sign + (if body1.len() >= 2 && body1[0] == '.' && is_digit(body1[1]) {
                seq!['0'] + t@.subrange(pos as int, i as int)
            } else {
                t@.subrange(pos as int, i as int)
            }),
        decreases n - i,
    {
        body.push(t[i]);
        i = i + 1;
        assert(t@.subrange(pos as int, i as int) =~= t@.subrange(pos as int, i - 1).push(
            t@[i - 1],
        ));
        assert(body@ =~= sign + (if body1.len() >= 2 && body1[0] == '.' && is_digit(body1[1]) {
            seq!['0'] + t@.subrange(pos as int, i as int)
        } else {
            t@.subrange(pos as int, i as int)
        }));
    }
    let ghost body2 = if body1.len() >= 2 && body1[0] == '.' && is_digit(body1[1]) {
        seq!['0'] + body1
    } else {
        body1
    };
    assert(body@ =~= sign + body2);
    let sign_len: usize = if neg {
        1
    } else {
        0
    };
    let m = body.len();
    let mut out: Vec<char> = Vec::new();
    if neg {
        out.push('-');
    }
    let mut k: usize = sign_len;
    while k < m
        invariant
            sign_len <= k <= m,
            m == body@.len(),
            sign_len == sign.len(),
            body@ == sign + body2,
            out@ + pad_dots(body2, k - sign_len) == sign + pad_dots(body2, 0),
        decreases m - k,
    {
        let c = body[k];
        proof {
            assert(body2[k - sign_len] == body@[k as int]);
        }
        let dot_padded = c == '.' && k > sign_len && is_digit_char(body[k - 1]) && (k + 1 == m
            || body[k + 1] == 'e' || body[k + 1] == 'E');
        if dot_padded {
            out.push('.');
            out.push('0');
            proof {
                assert(k - 1 >= sign_len);
                assert(body2[k - 1 - sign_len] == body@[k - 1]);
                if k + 1 < m {
                    assert(body2[k + 1 - sign_len] == body@[k + 1]);
                }
                assert(pad_dots(body2, k - sign_len) =~= seq!['.', '0'] + pad_dots(
                    body2,
                    k + 1 - sign_len,
                ));
                assert(out@ + pad_dots(body2, k + 1 - sign_len) =~= sign + pad_dots(body2, 0));
            }
        } else {
            out.push(c);
            proof {
                if k - sign_len > 0 {
                    assert(body2[k - 1 - sign_len] == body@[k - 1]);
                }
                if k + 1 < m {
                    assert(body2[k + 1 - sign_len] == body@[k + 1]);
                }
                assert(pad_dots(body2, k - sign_len) =~= seq![body2[k - sign_len]] + pad_dots(
                    body2,
                    k + 1 - sign_len,
                ));
                assert(out@ + pad_dots(body2, k + 1 - sign_len) =~= sign + pad_dots(body2, 0));
            }
        }
        k = k + 1;
    }
    proof {
        assert(pad_dots(body2, m - sign_len) =~= Seq::<char>::empty());
        assert(out@ =~= sign + pad_dots(body2, 0));
        assert(float_prep(t@) == sign + pad_dots(body2, 0));
    }
    out
}

/// The type rule for editing a scalar in place: a string takes the text
/// verbatim; a number takes an integer parse of the trimmed text first and
/// then a float parse (the trimmed text brought to JSON number form, so a
/// non-finite value cannot arise), rejecting anything else; a boolean takes
/// only the literal tokens; null and composite values are not editable.
pub open spec fn scalar_replacement(target: JsonView, text: Seq<char>) -> Result<
    JsonView,
    Seq<char>,
> {
    match target {
        JsonView::Str(_) => Ok(JsonView::Str(text)),
        JsonView::Num(_) => {
            let trimmed = trim_seq(text);
            match int_parse(trimmed) {
                Some(i) => Ok(JsonView::Num(int_text(i))),
                None => match number_from_text(float_prep(trimmed)) {
                    Some(t) => Ok(JsonView::Num(t)),
                    None => Err("Invalid number literal"@),
                },
            }
        },
        JsonView::Bool(_) => if is_true_lit(text) {
            Ok(JsonView::Bool(true))
        } else if is_false_lit(text) {
            Ok(JsonView::Bool(false))
        } else {
            Err("Invalid boolean (expected true/false)"@)
        },
        JsonView::Null => Err("Editing null not supported"@),
        _ => Err("Editing non-scalar value not supported"@),
    }
}

fn check_bool_lit(text: &str) -> (r: (bool, bool))
    ensures
        r.0 == is_true_lit(text@),
        r.1 == is_false_lit(text@),
{
    let cs = str_to_chars(text);
    let t = cs.len() == 4 && (cs[0] == 't' || cs[0] == 'T') && (cs[1] == 'r' || cs[1] == 'R') && (
    cs[2] == 'u' || cs[2] == 'U') && (cs[3] == 'e' || cs[3] == 'E');
    let f = cs.len() == 5 && (cs[0] == 'f' || cs[0] == 'F') && (cs[1] == 'a' || cs[1] == 'A') && (
    cs[2] == 'l' || cs[2] == 'L') && (cs[3] == 's' || cs[3] == 'S') && (cs[4] == 'e' || cs[4]
        == 'E');
    (t, f)
}

/// Computes the replacement value for a scalar edit, or the rejection.
fn scalar_replacement_exec(target: &JsonValue, text: &str) -> (r: Result<JsonValue, String>)
    ensures
        match r {
            Ok(v) => scalar_replacement(target@, text@) == Ok::<JsonView, Seq<char>>(v@)
                && wf_view(v@),
            Err(e) => scalar_replacement(target@, text@) == Err::<JsonView, Seq<char>>(e@),
        },
{
    match target {
        JsonValue::Str(_) => Ok(JsonValue::Str(text.to_owned())),
        JsonValue::Num(_) => {
            let cs = str_to_chars(text);
            let trimmed = trim_chars(&cs);
            match parse_i64_chars(&trimmed) {
                Some(i) => Ok(JsonValue::Num(int_number_text(i))),
                None => {
                    let prepared = prep_float_chars(&trimmed);
                    let ts = chars_to_string(&prepared);
                    match num_norm(ts.as_str()) {
                        Some(t) => Ok(JsonValue::Num(t)),
                        None => Err(String::from_str("Invalid number literal")),
                    }
                },
            }
        },
        JsonValue::Bool(_) => {
            let lits = check_bool_lit(text);
            if lits.0 {
                Ok(JsonValue::Bool(true))
            } else if lits.1 {
                Ok(JsonValue::Bool(false))
            } else {
                Err(String::from_str("Invalid boolean (expected true/false)"))
            }
        },
        JsonValue::Null => Err(String::from_str("Editing null not supported")),
        _ => Err(String::from_str("Editing non-scalar value not supported")),
    }
}


/// Which rejection a scalar edit reports, and on which inputs.
pub open spec fn set_scalar_rejection(
    st: AppStateView,
    pointer: Seq<char>,
    text: Seq<char>,
    e: Seq<char>,
) -> bool {
    match st.doc {
        None => e == "No document loaded"@,
        Some(d) => match locate(d, pointer) {
            None => e == "Invalid pointer"@,
            Some(target) => match scalar_replacement(target, text) {
                Err(m) => e == m,
                Ok(_) => false,
            },
        },
    }
}

/// Replaces the scalar a pointer leads to, per the type rule, and returns
/// the freshly built node for that pointer. On rejection the document is
/// unchanged.
pub fn set_node_value(pointer: String, new_value: String, state: &mut AppState) -> (r: Result<
    Node,
    String,
>)
    ensures
        match r {
            Ok(n) => {
                &&& old(state)@.doc matches Some(d)
                &&& ptr_tokens(pointer@) matches Some(toks)
                &&& old(state)@.doc matches Some(d) && ptr_tokens(pointer@) matches Some(toks)
                    ==> resolve(d, toks) matches Some(target) && scalar_replacement(
                    target,
                    new_value@,
                ) matches Ok(nv) && final(state)@ == (AppStateView {
                    doc: Some(set_at(d, toks, nv)),
                    ..old(state)@
                }) && n@ == path_node_view(nv, pointer@)
            },
            Err(e) => final(state)@ == old(state)@ && set_scalar_rejection(
                old(state)@,
                pointer@,
                new_value@,
                e@,
            ),
        },
{
    let doc = match state.document() {
        Some(d) => d,
        None => {
            return Err(String::from_str("No document loaded"));
        },
    };
    let toks = match parse_pointer(pointer.as_str()) {
        Some(t) => t,
        None => {
            return Err(String::from_str("Invalid pointer"));
        },
    };
    let target = match resolve_in(doc, &toks) {
        Some(v) => v,
        None => {
            return Err(String::from_str("Invalid pointer"));
        },
    };
    let nv = match scalar_replacement_exec(target, new_value.as_str()) {
        Ok(v) => v,
        Err(e) => {
            return Err(e);
        },
    };
    let ghost nvv = nv@;
    let new_doc = set_in(doc, &toks, 0, nv);
    proof {
        assert(strs_view(toks@).skip(0) =~= strs_view(toks@));
        lemma_set_at_wf(doc@, strs_view(toks@), nvv);
        lemma_resolve_set(doc@, strs_view(toks@), nvv);
    }
    let node = crate::tree::build_node_for_pointer(&new_doc, pointer.as_str());
    let node = match node {
        Ok(n) => n,
        Err(_) => {
            proof {
                assert(false);
            }
            return Err(String::new());
        },
    };
    state.install_doc(new_doc);
    Ok(node)
}


/// When a subtree replacement is accepted: the new text parses to a
/// container, the pointer resolves to a container, and the kinds agree.
pub open spec fn set_subtree_accepts(
    st: AppStateView,
    pointer: Seq<char>,
    new_json: Seq<char>,
) -> bool {
    match (json_parse(new_json), st.doc) {
        (Some(nv), Some(d)) => is_container(nv) && match locate(d, pointer) {
            Some(target) => is_container(target) && ((target is Obj) == (nv is Obj)),
            None => false,
        },
        _ => false,
    }
}

/// Which rejection a subtree replacement reports, and on which inputs.
pub open spec fn set_subtree_rejection(
    st: AppStateView,
    pointer: Seq<char>,
    new_json: Seq<char>,
    e: Seq<char>,
) -> bool {
    match json_parse(new_json) {
        None => true,
        Some(nv) => if !is_container(nv) {
            e == "Edited subtree must be an object or array"@
        } else {
            match st.doc {
                None => e == "No document loaded"@,
                Some(d) => match locate(d, pointer) {
                    None => e == "Invalid pointer"@,
                    Some(target) => if !is_container(target) {
                        e == "Current value is not an object or array"@
                    } else if (target is Obj) != (nv is Obj) {
                        e == "Type change not allowed (must remain object/array)"@
                    } else {
                        false
                    },
                },
            }
        },
    }
}

/// Parses a replacement subtree and installs it at the pointer. The new
/// value must be an object or array, the current value must be too, and
/// their kinds must agree; any rejection leaves the document unchanged.
pub fn set_subtree(pointer: String, new_json: String, state: &mut AppState) -> (r: Result<
    Node,
    String,
>)
    ensures
        match r {
            Ok(n) => {
                &&& set_subtree_accepts(old(state)@, pointer@, new_json@)
                &&& json_parse(new_json@) matches Some(nv)
                &&& ptr_tokens(pointer@) matches Some(toks)
                &&& old(state)@.doc matches Some(d)
                &&& json_parse(new_json@) matches Some(nv) && ptr_tokens(pointer@) matches Some(
                    toks,
                ) && old(state)@.doc matches Some(d) ==> final(state)@ == (AppStateView {
                    doc: Some(set_at(d, toks, nv)),
                    ..old(state)@
                }) && n@ == path_node_view(nv, pointer@)
            },
            Err(e) => final(state)@ == old(state)@ && set_subtree_rejection(
                old(state)@,
                pointer@,
                new_json@,
                e@,
            ),
        },
{
    let parsed = match parse_json_text(new_json.as_str()) {
        Ok(v) => v,
        Err(e) => {
            let mut msg = String::from_str("Parse error: ");
            msg.append(e.as_str());
            return Err(msg);
        },
    };
    let new_is_obj = matches!(parsed, JsonValue::Obj(_));
    let new_is_arr = matches!(parsed, JsonValue::Arr(_));
    if !new_is_obj && !new_is_arr {
        return Err(String::from_str("Edited subtree must be an object or array"));
    }
    let doc = match state.document() {
        Some(d) => d,
        None => {
            return Err(String::from_str("No document loaded"));
        },
    };
    let toks = match parse_pointer(pointer.as_str()) {
        Some(t) => t,
        None => {
            return Err(String::from_str("Invalid pointer"));
        },
    };
    let target = match resolve_in(doc, &toks) {
        Some(v) => v,
        None => {
            return Err(String::from_str("Invalid pointer"));
        },
    };
    let cur_is_obj = matches!(target, JsonValue::Obj(_));
    let cur_is_arr = matches!(target, JsonValue::Arr(_));
    if !cur_is_obj && !cur_is_arr {
        return Err(String::from_str("Current value is not an object or array"));
    }
    if cur_is_obj != new_is_obj {
        return Err(String::from_str("Type change not allowed (must remain object/array)"));
    }
    let ghost nvv = parsed@;
    let new_doc = set_in(doc, &toks, 0, parsed);
    proof {
        assert(strs_view(toks@).skip(0) =~= strs_view(toks@));
        lemma_set_at_wf(doc@, strs_view(toks@), nvv);
        lemma_resolve_set(doc@, strs_view(toks@), nvv);
    }
    let node = match crate::tree::build_node_for_pointer(&new_doc, pointer.as_str()) {
        Ok(n) => n,
        Err(_) => {
            proof {
                assert(false);
            }
            return Err(String::new());
        },
    };
    state.install_doc(new_doc);
    Ok(node)
}

/// Whether a trimmed string looks like embedded JSON: it opens and closes
/// with a matching brace or bracket pair.
pub open spec fn looks_like_json(s: Seq<char>) -> bool {
    let t = trim_seq(s);
    t.len() > 0 && ((t[0] == '{' && t[t.len() - 1] == '}') || (t[0] == '[' && t[t.len() - 1]
        == ']'))
}


/// Which rejection the stringified-JSON promotion reports, and on which
/// inputs.
pub open spec fn promote_rejection(st: AppStateView, pointer: Seq<char>, e: Seq<char>) -> bool {
    match st.doc {
        None => e == "No document loaded"@,
        Some(d) => match locate(d, pointer) {
            None => e == "Invalid pointer"@,
            Some(target) => match target {
                JsonView::Str(s) => if !looks_like_json(s) {
                    e == "String does not look like a JSON object/array"@
                } else {
                    match json_parse(trim_seq(s)) {
                        None => true,
                        Some(nv) => !is_container(nv) && e
                            == "Parsed value is not an object/array"@,
                    }
                },
                _ => e == "Target node is not a string"@,
            },
        },
    }
}

/// Replaces a string node whose content is itself a JSON object or array by
/// the parsed structure; anything else is rejected and the document kept.
pub fn parse_stringified_json(pointer: String, state: &mut AppState) -> (r: Result<Node, String>)
    ensures
        match r {
            Ok(n) => {
                &&& old(state)@.doc matches Some(d)
                &&& ptr_tokens(pointer@) matches Some(toks)
                &&& old(state)@.doc matches Some(d) && ptr_tokens(pointer@) matches Some(toks)
                    ==> resolve(d, toks) matches Some(target) && target matches JsonView::Str(s)
                    && json_parse(trim_seq(s)) matches Some(nv) && looks_like_json(s)
                    && is_container(nv) && final(state)@ == (AppStateView {
                    doc: Some(set_at(d, toks, nv)),
                    ..old(state)@
                }) && n@ == path_node_view(nv, pointer@)
            },
            Err(e) => final(state)@ == old(state)@ && promote_rejection(
                old(state)@,
                pointer@,
                e@,
            ),
        },
{
    let doc = match state.document() {
        Some(d) => d,
        None => {
            return Err(String::from_str("No document loaded"));
        },
    };
    let toks = match parse_pointer(pointer.as_str()) {
        Some(t) => t,
        None => {
            return Err(String::from_str("Invalid pointer"));
        },
    };
    let target = match resolve_in(doc, &toks) {
        Some(v) => v,
        None => {
            return Err(String::from_str("Invalid pointer"));
        },
    };
    let content = match target {
        JsonValue::Str(s) => s,
        _ => {
            return Err(String::from_str("Target node is not a string"));
        },
    };
    let cs = str_to_chars(content.as_str());
    let trimmed = trim_chars(&cs);
    let n = trimmed.len();
    let looks = n > 0 && ((trimmed[0] == '{' && trimmed[n - 1] == '}') || (trimmed[0] == '['
        && trimmed[n - 1] == ']'));
    if !looks {
        return Err(String::from_str("String does not look like a JSON object/array"));
    }
    let trimmed_s = chars_to_string(&trimmed);
    let parsed = match parse_json_text(trimmed_s.as_str()) {
        Ok(v) => v,
        Err(e) => {
            let mut msg = String::from_str("Parse error: ");
            msg.append(e.as_str());
            return Err(msg);
        },
    };
    let new_is_container = matches!(parsed, JsonValue::Obj(_) | JsonValue::Arr(_));
    if !new_is_container {
        return Err(String::from_str("Parsed value is not an object/array"));
    }
    let ghost nvv = parsed@;
    let new_doc = set_in(doc, &toks, 0, parsed);
    proof {
        assert(strs_view(toks@).skip(0) =~= strs_view(toks@));
        lemma_set_at_wf(doc@, strs_view(toks@), nvv);
        lemma_resolve_set(doc@, strs_view(toks@), nvv);
    }
    let node = match crate::tree::build_node_for_pointer(&new_doc, pointer.as_str()) {
        Ok(n) => n,
        Err(_) => {
            proof {
                assert(false);
            }
            return Err(String::new());
        },
    };
    state.install_doc(new_doc);
    Ok(node)
}

/// Setting a scalar, then reading the same pointer: after a successful
/// `set_node_value`, the pointer resolves exactly to the text reinterpreted
/// per the target's type rule, so a following `get_node_value` returns that
/// value's encoding.
pub proof fn lemma_set_then_get(
    d: JsonView,
    toks: Seq<Seq<char>>,
    target: JsonView,
    text: Seq<char>,
)
    requires
        resolve(d, toks) == Some(target),
        scalar_replacement(target, text) is Ok,
    ensures
        resolve(set_at(d, toks, scalar_replacement(target, text)->Ok_0), toks) == Some(
            scalar_replacement(target, text)->Ok_0,
        ),
{
    lemma_resolve_set(d, toks, scalar_replacement(target, text)->Ok_0);
}

} // verus!
