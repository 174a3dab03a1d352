//! Node projection: building summary nodes for values, paginating the
//! children of a value addressed by a JSON Pointer, and text matching for
//! the search engine.

use vstd::prelude::*;
use vstd::string::StringExecFns;
use crate::json::{
    JsonValue, JsonView, arr_view, obj_view, lemma_arr_view, lemma_obj_view, child_count_of,
    type_text, bool_text,
};
use crate::types::{Node, NodeView};
use crate::pointer::{
    escape_seq, escape_pointer_token, lemma_escape_injective, parse_pointer, resolve_in, locate,
    ptr_tokens,
};
use crate::strutil::{
    dec_digits, lemma_dec_digits_injective, usize_to_string, str_to_chars, contains_seq, has_word,
    contains_chars, has_word_chars,
};
use crate::outside::{regex_pattern, regex_match, regex_is_match, chars_to_string};

verus! {

/// A text cut to a character budget, with an ellipsis when it was cut.
pub open spec fn trunc_spec(s: Seq<char>, max: nat) -> Seq<char> {
    if s.len() <= max {
        s
    } else {
        s.subrange(0, max as int) + seq!['…']
    }
}

/// Cuts a string to at most `max` characters, appending an ellipsis when
/// something was cut.
pub fn truncate(s: &str, max: usize) -> (r: String)
    ensures
        r@ == trunc_spec(s@, max as nat),
{
    let cs = str_to_chars(s);
    if cs.len() <= max {
        s.to_owned()
    } else {
        let mut out: Vec<char> = Vec::new();
        let mut i: usize = 0;
        while i < max
            invariant
                0 <= i <= max,
                max < cs@.len(),
                cs@ == s@,
                out@ =~= cs@.subrange(0, i as int),
            decreases max - i,
        {
            out.push(cs[i]);
            i = i + 1;
            assert(out@ =~= cs@.subrange(0, i as int));
        }
        out.push('…');
        assert(out@ =~= trunc_spec(s@, max as nat));
        chars_to_string(&out)
    }
}

/// The preview text a node shows for a value.
pub open spec fn preview_of(j: JsonView, trunc: Option<nat>) -> Seq<char> {
    match j {
        JsonView::Obj(es) => (if es.len() == 0 {
            "{} "@
        } else {
            "{…} "@
        }) + dec_digits(es.len()) + " keys"@,
        JsonView::Arr(a) => (if a.len() == 0 {
            "[] "@
        } else {
            "[…] "@
        }) + dec_digits(a.len()) + " items"@,
        JsonView::Str(s) => match trunc {
            Some(m) => trunc_spec(s, m),
            None => s,
        },
        JsonView::Num(t) => t,
        JsonView::Bool(b) => bool_text(b),
        JsonView::Null => "null"@,
    }
}

/// The node summarizing a value at a pointer.
pub open spec fn node_view_of(
    j: JsonView,
    ptr: Seq<char>,
    key: Option<Seq<char>>,
    trunc: Option<nat>,
) -> NodeView {
    NodeView {
        pointer: ptr,
        key: key,
        value_type: type_text(j),
        has_children: child_count_of(j) > 0,
        child_count: child_count_of(j),
        preview: preview_of(j, trunc),
    }
}

/// The pointer of an object child: the parent pointer, a separator, and the
/// escaped key.
pub open spec fn child_ptr(p: Seq<char>, k: Seq<char>) -> Seq<char> {
    p + "/"@ + escape_seq(k)
}

/// The pointer of an array element: the parent pointer, a separator, and
/// the decimal index.
pub open spec fn arr_child_ptr(p: Seq<char>, i: nat) -> Seq<char> {
    p + "/"@ + dec_digits(i)
}

pub open spec fn opt_str_view(o: Option<&str>) -> Option<Seq<char>> {
    match o {
        Some(s) => Some(s@),
        None => None,
    }
}

pub open spec fn opt_nat_view(o: Option<usize>) -> Option<nat> {
    match o {
        Some(m) => Some(m as nat),
        None => None,
    }
}

fn node_parts(v: &JsonValue, trunc: Option<usize>) -> (r: (String, bool, usize, String))
    ensures
        r.0@ == type_text(v@),
        r.1 == (child_count_of(v@) > 0),
        r.2 as nat == child_count_of(v@),
        r.3@ == preview_of(v@, opt_nat_view(trunc)),
{
    match v {
        JsonValue::Obj(entries) => {
            proof {
                lemma_obj_view(entries@);
            }
            let n = entries.len();
            let mut p = if n == 0 {
                String::from_str("{} ")
            } else {
                String::from_str("{…} ")
            };
            let ns = usize_to_string(n);
            p.append(ns.as_str());
            p.append(" keys");
            (String::from_str("object"), n != 0, n, p)
        },
        JsonValue::Arr(items) => {
            proof {
                lemma_arr_view(items@);
            }
            let n = items.len();
            let mut p = if n == 0 {
                String::from_str("[] ")
            } else {
                String::from_str("[…] ")
            };
            let ns = usize_to_string(n);
            p.append(ns.as_str());
            p.append(" items");
            (String::from_str("array"), n != 0, n, p)
        },
        JsonValue::Str(s) => {
            let p = match trunc {
                Some(limit) => truncate(s.as_str(), limit),
                None => s.clone(),
            };
            (String::from_str("string"), false, 0, p)
        },
        JsonValue::Num(t) => (String::from_str("number"), false, 0, t.clone()),
        JsonValue::Bool(b) => {
            let p = if *b {
                String::from_str("true")
            } else {
                String::from_str("false")
            };
            (String::from_str("boolean"), false, 0, p)
        },
        JsonValue::Null => (String::from_str("null"), false, 0, String::from_str("null")),
    }
}

/// Builds the summary node for a value reached from `parent_ptr`: with a
/// key, the node sits at the child pointer formed by escaping the key;
/// without one, at the parent pointer itself.
pub fn to_node_with_truncation(
    parent_ptr: &str,
    key: Option<&str>,
    v: &JsonValue,
    truncate_limit: Option<usize>,
) -> (n: Node)
    ensures
        n@ == node_view_of(
            v@,
            match opt_str_view(key) {
                Some(k) => child_ptr(parent_ptr@, k),
                None => parent_ptr@,
            },
            opt_str_view(key),
            opt_nat_view(truncate_limit),
        ),
{
    let parts = node_parts(v, truncate_limit);
    let (pointer, key_s) = match key {
        Some(k) => {
            let e = escape_pointer_token(k);
            let mut p = parent_ptr.to_owned();
            p.append("/");
            p.append(e.as_str());
            (p, Some(k.to_owned()))
        },
        None => (parent_ptr.to_owned(), None),
    };
    Node {
        pointer,
        key: key_s,
        value_type: parts.0,
        has_children: parts.1,
        child_count: parts.2,
        preview: parts.3,
    }
}

/// The start of the last segment of a pointer: the position just after the
/// last separator, or the start when there is none.
pub open spec fn last_seg_start(s: Seq<char>) -> int
    decreases s.len(),
{
    if s.len() == 0 {
        0
    } else if s.last() == '/' {
        s.len() as int
    } else {
        last_seg_start(s.drop_last())
    }
}

proof fn lemma_last_seg_start_of(s: Seq<char>, j: int)
    requires
        0 <= j <= s.len(),
        j == 0 || s[j - 1] == '/',
        forall|k: int| j <= k < s.len() ==> s[k] != '/',
    ensures
        last_seg_start(s) == j,
    decreases s.len(),
{
    if s.len() > 0 {
        if j == s.len() {
        } else {
            assert(s.last() != '/');
            assert forall|k: int| j <= k < s.drop_last().len() implies s.drop_last()[k]
                != '/' by {
                assert(s.drop_last()[k] == s[k]);
            }
            if j > 0 {
                assert(s.drop_last()[j - 1] == s[j - 1]);
            }
            lemma_last_seg_start_of(s.drop_last(), j);
        }
    }
}

/// The key a path node reports: the raw text after the last separator, or
/// nothing for the root pointer.
pub open spec fn path_key(p: Seq<char>) -> Option<Seq<char>> {
    if p.len() == 0 {
        None
    } else {
        Some(p.subrange(last_seg_start(p), p.len() as int))
    }
}

/// The node summarizing the value a pointer leads to, with the string
/// preview cut to the standard budget.
pub open spec fn path_node_view(j: JsonView, p: Seq<char>) -> NodeView {
    node_view_of(j, p, path_key(p), Some(120nat))
}

/// Builds the summary node for a value sitting at a full pointer; the
/// reported key is the raw text of the pointer's last segment.
pub fn create_node_for_path(value: &JsonValue, pointer: &str) -> (n: Node)
    ensures
        n@ == path_node_view(value@, pointer@),
{
    let parts = node_parts(value, Some(120));
    let cs = str_to_chars(pointer);
    let key = if cs.len() == 0 {
        None
    } else {
        let mut j: usize = cs.len();
        while j > 0 && cs[j - 1] != '/'
            invariant
                0 <= j <= cs@.len(),
                forall|k: int| j <= k < cs@.len() ==> cs@[k] != '/',
            decreases j,
        {
            j = j - 1;
        }
        proof {
            lemma_last_seg_start_of(cs@, j as int);
        }
        let mut seg: Vec<char> = Vec::new();
        let mut i: usize = j;
        while i < cs.len()
            invariant
                j <= i <= cs@.len(),
                seg@ =~= cs@.subrange(j as int, i as int),
            decreases cs@.len() - i,
        {
            seg.push(cs[i]);
            i = i + 1;
            assert(seg@ =~= cs@.subrange(j as int, i as int));
        }
        Some(chars_to_string(&seg))
    };
    Node {
        pointer: pointer.to_owned(),
        key,
        value_type: parts.0,
        has_children: parts.1,
        child_count: parts.2,
        preview: parts.3,
    }
}

/// Rebuilds the summary node for a pointer, for returning after a
/// mutation; unlike listing, an unresolvable pointer is an error here.
pub fn build_node_for_pointer(root: &JsonValue, pointer: &str) -> (r: Result<Node, String>)
    ensures
        match r {
            Ok(n) => locate(root@, pointer@) matches Some(v) && n@ == path_node_view(v, pointer@),
            Err(e) => locate(root@, pointer@) is None && e@ == "Invalid pointer"@,
        },
{
    let toks = match parse_pointer(pointer) {
        Some(t) => t,
        None => {
            return Err("Invalid pointer".to_owned());
        },
    };
    match resolve_in(root, &toks) {
        Some(v) => Ok(create_node_for_path(v, pointer)),
        None => Err("Invalid pointer".to_owned()),
    }
}

/// The summary nodes of every child of a value, in order.
pub open spec fn children_nodes(target: JsonView, p: Seq<char>) -> Seq<NodeView> {
    match target {
        JsonView::Obj(es) => Seq::new(
            es.len(),
            |i: int| node_view_of(es[i].1, child_ptr(p, es[i].0), Some(es[i].0), None),
        ),
        JsonView::Arr(a) => Seq::new(
            a.len(),
            |i: int|
                node_view_of(
                    a[i],
                    arr_child_ptr(p, i as nat),
                    Some(dec_digits(i as nat)),
                    None,
                ),
        ),
        _ => Seq::empty(),
    }
}

/// One pagination window over a sequence: up to `limit` elements starting
/// at `offset`, clipped to the sequence.
pub open spec fn page_of(s: Seq<NodeView>, offset: int, limit: int) -> Seq<NodeView> {
    let lo = if offset <= s.len() {
        offset
    } else {
        s.len() as int
    };
    let hi = if offset + limit <= s.len() {
        offset + limit
    } else {
        s.len() as int
    };
    if 0 <= lo <= hi <= s.len() {
        s.subrange(lo, hi)
    } else {
        Seq::empty()
    }
}

/// The target a pointer selects for listing: the value it resolves to, or
/// the root when the pointer is invalid or does not resolve.
pub open spec fn list_target(root: JsonView, p: Seq<char>) -> JsonView {
    match locate(root, p) {
        Some(v) => v,
        None => root,
    }
}

/// The views of a vector of nodes.
pub open spec fn nodes_view(v: Seq<Node>) -> Seq<NodeView> {
    Seq::new(v.len(), |i: int| v[i]@)
}

/// Lists one page of the children of the value a pointer leads to; an
/// unresolvable pointer degrades to the root, and a scalar has no children.
pub fn list_children(root: &JsonValue, pointer: &str, offset: usize, limit: usize) -> (r: Vec<
    Node,
>)
    ensures
        nodes_view(r@) == page_of(
            children_nodes(list_target(root@, pointer@), pointer@),
            offset as int,
            limit as int,
        ),
{
    let target: &JsonValue = match parse_pointer(pointer) {
        Some(toks) => match resolve_in(root, &toks) {
            Some(v) => v,
            None => root,
        },
        None => root,
    };
    assert(target@ == list_target(root@, pointer@));
    let ghost cn = children_nodes(target@, pointer@);
    let mut out: Vec<Node> = Vec::new();
    match target {
        JsonValue::Obj(entries) => {
            proof {
                lemma_obj_view(entries@);
            }
            let n = entries.len();
            let lo = if offset <= n {
                offset
            } else {
                n
            };
            let hi = if limit <= n - lo {
                lo + limit
            } else {
                n
            };
            let mut i: usize = lo;
            while i < hi
                invariant
                    lo <= i <= hi <= entries@.len(),
                    cn == children_nodes(target@, pointer@),
                    target@ == JsonView::Obj(obj_view(entries@)),
                    cn.len() == entries@.len(),
                    forall|q: int|
                        0 <= q < entries@.len() ==> obj_view(entries@)[q] == ((
                        #[trigger] entries@[q]).0@, entries@[q].1@),
                    out@.len() == i - lo,
                    forall|q: int| 0 <= q < i - lo ==> (#[trigger] out@[q])@ == cn[lo + q],
                decreases hi - i,
            {
                let e = &entries[i];
                let node = to_node_with_truncation(pointer, Some(e.0.as_str()), &e.1, None);
                proof {
                    assert(cn[i as int] == node_view_of(
                        obj_view(entries@)[i as int].1,
                        child_ptr(pointer@, obj_view(entries@)[i as int].0),
                        Some(obj_view(entries@)[i as int].0),
                        None,
                    ));
                }
                out.push(node);
                i = i + 1;
            }
            proof {
                assert(nodes_view(out@) =~= page_of(cn, offset as int, limit as int));
            }
        },
        JsonValue::Arr(items) => {
            proof {
                lemma_arr_view(items@);
            }
            let n = items.len();
            let lo = if offset <= n {
                offset
            } else {
                n
            };
            let hi = if limit <= n - lo {
                lo + limit
            } else {
                n
            };
            let mut i: usize = lo;
            while i < hi
                invariant
                    lo <= i <= hi <= items@.len(),
                    cn == children_nodes(target@, pointer@),
                    target@ == JsonView::Arr(arr_view(items@)),
                    cn.len() == items@.len(),
                    forall|q: int|
                        0 <= q < items@.len() ==> arr_view(items@)[q] == (#[trigger] items@[q])@,
                    out@.len() == i - lo,
                    forall|q: int| 0 <= q < i - lo ==> (#[trigger] out@[q])@ == cn[lo + q],
                decreases hi - i,
            {
                let ks = usize_to_string(i);
                let node = to_node_with_truncation(pointer, Some(ks.as_str()), &items[i], None);
                proof {
                    assert(cn[i as int] == node_view_of(
                        arr_view(items@)[i as int],
                        arr_child_ptr(pointer@, i as nat),
                        Some(dec_digits(i as nat)),
                        None,
                    ));
                    assert(child_ptr(pointer@, dec_digits(i as nat)) == arr_child_ptr(
                        pointer@,
                        i as nat,
                    )) by {
                        lemma_escape_digits(i as nat);
                    }
                }
                out.push(node);
                i = i + 1;
            }
            proof {
                assert(nodes_view(out@) =~= page_of(cn, offset as int, limit as int));
            }
        },
        _ => {
            proof {
                assert(cn.len() == 0);
                assert(nodes_view(out@) =~= page_of(cn, offset as int, limit as int));
            }
        },
    }
    out
}

/// Escaping a decimal index leaves it unchanged: it holds no `~` or `/`.
proof fn lemma_escape_digits(n: nat)
    ensures
        escape_seq(dec_digits(n)) == dec_digits(n),
{
    crate::strutil::lemma_dec_digits(n);
    lemma_escape_all_plain(dec_digits(n));
}

proof fn lemma_escape_all_plain(s: Seq<char>)
    requires
        forall|i: int| 0 <= i < s.len() ==> crate::strutil::is_digit(#[trigger] s[i]),
    ensures
        escape_seq(s) == s,
    decreases s.len(),
{
    if s.len() > 0 {
        assert(forall|i: int|
            0 <= i < s.drop_first().len() ==> crate::strutil::is_digit(
                #[trigger] s.drop_first()[i],
            ));
        lemma_escape_all_plain(s.drop_first());
        assert(escape_seq(s) =~= s);
    }
}

proof fn lemma_append_cancel(a: Seq<char>, x: Seq<char>, y: Seq<char>)
    requires
        a + x == a + y,
    ensures
        x == y,
{
    assert((a + x).skip(a.len() as int) =~= x);
    assert((a + y).skip(a.len() as int) =~= y);
}

/// Children of one parent all carry distinct pointers.
pub proof fn lemma_children_distinct(target: JsonView, p: Seq<char>)
    requires
        target matches JsonView::Obj(es) ==> forall|a: int, b: int|
            0 <= a < b < es.len() ==> (#[trigger] es[a]).0 != (#[trigger] es[b]).0,
    ensures
        forall|i: int, k: int|
            0 <= i < k < children_nodes(target, p).len() ==> (#[trigger] children_nodes(
                target,
                p,
            )[i]).pointer != (#[trigger] children_nodes(target, p)[k]).pointer,
{
    let cn = children_nodes(target, p);
    assert forall|i: int, k: int| 0 <= i < k < cn.len() implies (#[trigger] cn[i]).pointer != (
    #[trigger] cn[k]).pointer by {
        match target {
            JsonView::Obj(es) => {
                assert(es[i].0 != es[k].0);
                lemma_escape_injective(es[i].0, es[k].0);
                if cn[i].pointer == cn[k].pointer {
                    lemma_append_cancel(p + "/"@, escape_seq(es[i].0), escape_seq(es[k].0));
                    assert(false);
                }
            },
            JsonView::Arr(_) => {
                lemma_dec_digits_injective(i as nat, k as nat);
                if cn[i].pointer == cn[k].pointer {
                    lemma_append_cancel(p + "/"@, dec_digits(i as nat), dec_digits(k as nat));
                    assert(false);
                }
            },
            _ => {},
        }
    }
}

/// A child pointer built by the navigator leads back to exactly that
/// child: extending the pointer of an object by one escaped key resolves to
/// that entry's value, so every listed node's pointer denotes its value.
pub proof fn lemma_child_pointer_resolves(d: JsonView, p: Seq<char>, i: int)
    requires
        ptr_tokens(p) is Some,
        locate(d, p) matches Some(t) && t matches JsonView::Obj(es) && 0 <= i < es.len() && (
        forall|a: int, b: int|
            0 <= a < b < es.len() ==> (#[trigger] es[a]).0 != (#[trigger] es[b]).0),
    ensures
        locate(d, p) matches Some(t) && t matches JsonView::Obj(es) ==> locate(
            d,
            child_ptr(p, es[i].0),
        ) == Some(es[i].1),
{
    let toks = ptr_tokens(p)->Some_0;
    match locate(d, p) {
        Some(t) => {
            match t {
                JsonView::Obj(es) => {
                    crate::pointer::lemma_tokens_append(p, es[i].0);
                    crate::pointer::lemma_resolve_snoc(d, toks, es[i].0);
                    crate::pointer::lemma_find_key_at(es, i);
                },
                _ => {},
            }
        },
        None => {},
    }
}

/// The index pointer of an array element leads back to exactly that
/// element.
pub proof fn lemma_element_pointer_resolves(d: JsonView, p: Seq<char>, i: int)
    requires
        ptr_tokens(p) is Some,
        0 <= i <= usize::MAX,
        locate(d, p) matches Some(t) && t matches JsonView::Arr(a) && i < a.len(),
    ensures
        locate(d, p) matches Some(t) && t matches JsonView::Arr(a) ==> locate(
            d,
            arr_child_ptr(p, i as nat),
        ) == Some(a[i]),
{
    let toks = ptr_tokens(p)->Some_0;
    match locate(d, p) {
        Some(t) => {
            match t {
                JsonView::Arr(a) => {
                    lemma_escape_digits(i as nat);
                    crate::pointer::lemma_tokens_append(p, dec_digits(i as nat));
                    assert(p + "/"@ + escape_seq(dec_digits(i as nat)) == arr_child_ptr(
                        p,
                        i as nat,
                    ));
                    crate::pointer::lemma_resolve_snoc(d, toks, dec_digits(i as nat));
                    crate::pointer::lemma_idx_parse_dec(i);
                    crate::pointer::lemma_escape_round_trip(dec_digits(i as nat));
                },
                _ => {},
            }
        },
        None => {},
    }
}

/// Pagination of a value's children partitions them: projecting from the
/// start with the full child count yields exactly one node per child, and
/// windows at different offsets never return the same node for different
/// child positions.
pub proof fn lemma_project_partition(
    target: JsonView,
    p: Seq<char>,
    o1: int,
    l1: int,
    i1: int,
    o2: int,
    l2: int,
    i2: int,
)
    requires
        target matches JsonView::Obj(es) ==> forall|a: int, b: int|
            0 <= a < b < es.len() ==> (#[trigger] es[a]).0 != (#[trigger] es[b]).0,
        0 <= o1 && 0 <= l1 && 0 <= o2 && 0 <= l2,
        0 <= i1 < page_of(children_nodes(target, p), o1, l1).len(),
        0 <= i2 < page_of(children_nodes(target, p), o2, l2).len(),
        o1 + i1 != o2 + i2,
    ensures
        page_of(children_nodes(target, p), 0, child_count_of(target) as int).len()
            == child_count_of(target),
        page_of(children_nodes(target, p), o1, l1)[i1] != page_of(
            children_nodes(target, p),
            o2,
            l2,
        )[i2],
{
    let cn = children_nodes(target, p);
    assert(cn.len() == child_count_of(target));
    lemma_children_distinct(target, p);
    assert(page_of(cn, o1, l1)[i1] == cn[o1 + i1]);
    assert(page_of(cn, o2, l2)[i2] == cn[o2 + i2]);
    if o1 + i1 < o2 + i2 {
        assert(cn[o1 + i1].pointer != cn[o2 + i2].pointer);
    } else {
        assert(cn[o2 + i2].pointer != cn[o1 + i1].pointer);
    }
}

/// The text-match policy: a compiled regular expression wins, then
/// whole-word token equality, then plain substring containment. The text
/// and query are already case-normalized by the caller.
pub open spec fn tm_spec(
    text: Seq<char>,
    query: Seq<char>,
    rpat: Option<Seq<char>>,
    whole_word: bool,
) -> bool {
    match rpat {
        Some(pat) => regex_match(pat, text),
        None => if whole_word {
            has_word(text, query)
        } else {
            contains_seq(text, query)
        },
    }
}

/// The pattern a possibly-compiled regular expression carries.
pub open spec fn re_view(re: Option<&regex::Regex>) -> Option<Seq<char>> {
    match re {
        Some(r) => Some(regex_pattern(*r)),
        None => None,
    }
}

/// Tests one candidate text against the query under the active policy.
pub fn text_matches(text: &str, query: &str, re: Option<&regex::Regex>, whole_word: bool) -> (r:
    bool)
    ensures
        r == tm_spec(text@, query@, re_view(re), whole_word),
{
    match re {
        Some(r) => regex_is_match(r, text),
        None => {
            let tc = str_to_chars(text);
            let qc = str_to_chars(query);
            if whole_word {
                has_word_chars(&tc, &qc)
            } else {
                contains_chars(&tc, &qc)
            }
        },
    }
}

} // verus!
