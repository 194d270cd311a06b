//! Tool-return sinks: string leaves of structured output that look like
//! payload rather than metadata.

use vstd::prelude::*;
use vstd::string::StringExecFns;

use crate::json::{field, get_field, parse_json, parsed_json, Json};
use crate::scan::prompt_sink::{sink_views, PromptSink, SinkView};
use crate::text::{chars_of, compare_text, lemma_text_lt_transitive, push_char, text_lt, lines, split_lines, string_of, trim_bounds, trimmed, views};

verus! {

broadcast use vstd::std_specs::vec::group_vec_axioms;

/// The shortest leaf, after trimming, that counts as payload.
pub const MIN_LEAF_LEN: usize = 12;

/// The decimal digit for `d < 10`.
pub open spec fn digit(d: nat) -> char {
    seq!['0', '1', '2', '3', '4', '5', '6', '7', '8', '9'][d as int]
}

/// `n` written in decimal.
pub open spec fn decimal(n: nat) -> Seq<char>
    decreases n,
{
    if n < 10 {
        seq![digit(n)]
    } else {
        decimal(n / 10).push(digit(n % 10))
    }
}

/// ASCII upper-case letters made lower-case; other characters kept.
pub open spec fn ascii_lower(c: char) -> char {
    if 'A' <= c && c <= 'Z' {
        (((c as u8) + 32) as u8) as char
    } else {
        c
    }
}

/// The names of metadata-like fields, whose leaves are never payload.
pub open spec fn metadata_suffixes() -> Seq<Seq<char>> {
    seq![".id"@, ".uuid"@, ".timestamp"@, ".status"@, ".code"@, ".version"@]
}

/// The path, with ASCII letters lower-cased, ends with `.` and a metadata name.
pub open spec fn is_metadata_path(path: Seq<char>) -> bool {
    let lower = path.map_values(|c: char| ascii_lower(c));
    exists|m: int| 0 <= m < 6 && crate::text::ends_with(lower, #[trigger] metadata_suffixes()[m])
}

/// A string leaf at `path` is payload: at least 12 characters after trimming,
/// and not under a metadata-like name.
pub open spec fn is_candidate_leaf_spec(path: Seq<char>, s: Seq<char>) -> bool {
    trimmed(s).len() >= MIN_LEAF_LEN && !is_metadata_path(path)
}

/// The payload leaves of `v`, depth first, with their paths from `path`.
pub open spec fn leaves(v: Json, path: Seq<char>) -> Seq<SinkView>
    decreases v,
{
    match v {
        Json::Str(s) => if is_candidate_leaf_spec(path, s@) {
            seq![SinkView::ToolReturnLeaf { path, value: s@ }]
        } else {
            Seq::empty()
        },
        Json::Array(items) => item_leaves(items, path, items.len() as int),
        Json::Object(members) => member_leaves(members, path, members.len() as int),
        Json::Scalar => Seq::empty(),
    }
}

/// The payload leaves of the first `n` items, at `path[i]` for item `i`.
pub open spec fn item_leaves(items: Vec<Json>, path: Seq<char>, n: int) -> Seq<SinkView>
    decreases items, n,
{
    if n <= 0 || n > items.len() {
        Seq::empty()
    } else {
        item_leaves(items, path, n - 1) + leaves(
            items[n - 1],
            path + "["@ + decimal((n - 1) as nat) + "]"@,
        )
    }
}

/// The payload leaves of the first `n` members, at `path.key` for each.
pub open spec fn member_leaves(members: Vec<(String, Json)>, path: Seq<char>, n: int) -> Seq<SinkView>
    decreases members, n,
{
    if n <= 0 || n > members.len() {
        Seq::empty()
    } else {
        member_leaves(members, path, n - 1) + leaves(
            members[n - 1].1,
            path + "."@ + members[n - 1].0@,
        )
    }
}

fn digit_char(d: usize) -> (r: char)
    requires
        d < 10,
    ensures
        r == digit(d as nat),
{
    let digits = ['0', '1', '2', '3', '4', '5', '6', '7', '8', '9'];
    let r = digits[d];
    assert(digits@ =~= seq!['0', '1', '2', '3', '4', '5', '6', '7', '8', '9']);
    r
}

/// Appends `n` in decimal to `s`.
fn push_decimal(s: &mut String, n: usize)
    ensures
        final(s)@ == old(s)@ + decimal(n as nat),
    decreases n,
{
    if n >= 10 {
        push_decimal(s, n / 10);
    }
    push_char(s, digit_char(n % 10));
    assert(final(s)@ =~= old(s)@ + decimal(n as nat));
}

fn lower_char(c: char) -> (r: char)
    ensures
        r == ascii_lower(c),
{
    if 'A' <= c && c <= 'Z' {
        ((c as u8) + 32) as char
    } else {
        c
    }
}

/// Whether `lower` ends with `suffix`.
fn ends_with_chars(lower: &Vec<char>, suffix: &str) -> (r: bool)
    ensures
        r == crate::text::ends_with(lower@, suffix@),
{
    let sc = chars_of(suffix);
    if sc.len() > lower.len() {
        return false;
    }
    let off = lower.len() - sc.len();
    let mut i: usize = 0;
    while i < sc.len()
        invariant
            i <= sc.len(),
            off + sc.len() == lower.len(),
            sc@ == suffix@,
            lower@.subrange(off as int, off + i) == sc@.subrange(0, i as int),
        decreases sc.len() - i,
    {
        if lower[off + i] != sc[i] {
            assert(lower@.subrange(off as int, lower.len() as int)[i as int] != sc@[i as int]);
            return false;
        }
        i = i + 1;
        assert(lower@.subrange(off as int, off + i) =~= sc@.subrange(0, i as int));
    }
    assert(sc@.subrange(0, i as int) =~= sc@);
    true
}

/// Whether a string leaf `s` at `path` counts as payload (see `is_candidate_leaf_spec`).
pub fn is_candidate_leaf(path: &str, s: &str) -> (r: bool)
    ensures
        r == is_candidate_leaf_spec(path@, s@),
{
    let sc = chars_of(s);
    let (a, b) = trim_bounds(&sc);
    if b - a < MIN_LEAF_LEN {
        return false;
    }
    let pc = chars_of(path);
    let mut lower: Vec<char> = Vec::new();
    let mut i: usize = 0;
    while i < pc.len()
        invariant
            i <= pc.len(),
            lower@ == pc@.subrange(0, i as int).map_values(|c: char| ascii_lower(c)),
        decreases pc.len() - i,
    {
        lower.push(lower_char(pc[i]));
        i = i + 1;
        assert(lower@ =~= pc@.subrange(0, i as int).map_values(|c: char| ascii_lower(c)));
    }
    assert(pc@.subrange(0, pc.len() as int) =~= pc@);
    let ghost sfx = metadata_suffixes();
    let r0 = ends_with_chars(&lower, ".id");
    let r1 = ends_with_chars(&lower, ".uuid");
    let r2 = ends_with_chars(&lower, ".timestamp");
    let r3 = ends_with_chars(&lower, ".status");
    let r4 = ends_with_chars(&lower, ".code");
    let r5 = ends_with_chars(&lower, ".version");
    let meta = r0 || r1 || r2 || r3 || r4 || r5;
    assert(sfx[0] == ".id"@ && sfx[1] == ".uuid"@ && sfx[2] == ".timestamp"@ && sfx[3] == ".status"@
        && sfx[4] == ".code"@ && sfx[5] == ".version"@);
    if meta {
        assert(is_metadata_path(path@)) by {
            if r0 { assert(crate::text::ends_with(lower@, sfx[0])); }
            else if r1 { assert(crate::text::ends_with(lower@, sfx[1])); }
            else if r2 { assert(crate::text::ends_with(lower@, sfx[2])); }
            else if r3 { assert(crate::text::ends_with(lower@, sfx[3])); }
            else if r4 { assert(crate::text::ends_with(lower@, sfx[4])); }
            else { assert(crate::text::ends_with(lower@, sfx[5])); }
        }
    } else {
        assert(!is_metadata_path(path@)) by {
            assert forall|m: int| 0 <= m < 6 implies !crate::text::ends_with(lower@, #[trigger] sfx[m]) by {
                if m == 0 {} else if m == 1 {} else if m == 2 {} else if m == 3 {} else if m == 4 {} else {}
            }
        }
    }
    !meta
}

/// The path of item `i` below `path`: `path[i]`.
fn item_path(path: &String, i: usize) -> (r: String)
    ensures
        r@ == path@ + "["@ + decimal(i as nat) + "]"@,
{
    let mut r = path.clone();
    r.append("[");
    push_decimal(&mut r, i);
    r.append("]");
    r
}

/// The path of member `key` below `path`: `path.key`.
fn member_path(path: &String, key: &String) -> (r: String)
    ensures
        r@ == path@ + "."@ + key@,
{
    let mut r = path.clone();
    r.append(".");
    r.append(key.as_str());
    r
}

/// Appends the payload leaves of `v` below `path` to `out` (see `leaves`).
fn collect_string_leaves(v: &Json, path: String, out: &mut Vec<PromptSink>)
    ensures
        sink_views(final(out)@) == sink_views(old(out)@) + leaves(*v, path@),
    decreases v,
{
    match v {
        Json::Str(s) => {
            if is_candidate_leaf(path.as_str(), s.as_str()) {
                let ghost before = sink_views(out@);
                out.push(PromptSink::ToolReturnLeaf { path, value: s.clone() });
                assert(sink_views(out@) =~= before + leaves(*v, path@));
            } else {
                assert(sink_views(out@) =~= sink_views(out@) + leaves(*v, path@));
            }
        },
        Json::Array(items) => {
            let ghost start = sink_views(out@);
            let mut i: usize = 0;
            assert(start =~= start + item_leaves(*items, path@, 0));
            while i < items.len()
                invariant
                    i <= items.len(),
                    *v == Json::Array(*items),
                    sink_views(out@) == start + item_leaves(*items, path@, i as int),
                decreases items.len() - i,
            {
                let ghost before = sink_views(out@);
                proof {
                    vstd::std_specs::vec::axiom_vec_index_decreases(*items, i as int);
                    assert(decreases_to!(*v => (*v)->Array_0));
                }
                collect_string_leaves(&items[i], item_path(&path, i), out);
                i = i + 1;
                assert(sink_views(out@) =~= start + item_leaves(*items, path@, i as int));
            }
        },
        Json::Object(members) => {
            let ghost start = sink_views(out@);
            let mut i: usize = 0;
            assert(start =~= start + member_leaves(*members, path@, 0));
            while i < members.len()
                invariant
                    i <= members.len(),
                    *v == Json::Object(*members),
                    sink_views(out@) == start + member_leaves(*members, path@, i as int),
                decreases members.len() - i,
            {
                proof {
                    vstd::std_specs::vec::axiom_vec_index_decreases(*members, i as int);
                    assert(decreases_to!(*v => (*v)->Object_0));
                    assert(decreases_to!(members[i as int] => members[i as int].1));
                }
                collect_string_leaves(&members[i].1, member_path(&path, &members[i].0), out);
                i = i + 1;
                assert(sink_views(out@) =~= start + member_leaves(*members, path@, i as int));
            }
        },
        Json::Scalar => {
            assert(sink_views(out@) =~= sink_views(out@) + leaves(*v, path@));
        },
    }
}

/// The payload sinks of one JSON document: none where it carries a `prompt`
/// or `messages` field, else its payload leaves from the root `$`.
pub open spec fn json_tool_return_views(v: Json) -> Seq<SinkView> {
    if field(v, "prompt"@) is Some || field(v, "messages"@) is Some {
        Seq::empty()
    } else {
        leaves(v, "$"@)
    }
}

/// The payload sinks of one output line: those of the JSON document that the
/// trimmed line parses as, if any.
pub open spec fn line_tool_return_views(line: Seq<char>) -> Seq<SinkView> {
    let t = trimmed(line);
    if t.len() == 0 {
        Seq::empty()
    } else {
        match parsed_json(t) {
            Some(v) => json_tool_return_views(v),
            None => Seq::empty(),
        }
    }
}

/// The payload sinks of a sequence of lines, line by line.
pub open spec fn tool_return_views(ls: Seq<Seq<char>>) -> Seq<SinkView>
    decreases ls.len(),
{
    if ls.len() == 0 {
        Seq::empty()
    } else {
        tool_return_views(ls.drop_last()) + line_tool_return_views(ls.last())
    }
}

/// No sink of `s` has a text that comes before that of an earlier sink.
pub open spec fn sorted_by_text(s: Seq<SinkView>) -> bool {
    forall|i: int, j: int| 0 <= i < j < s.len() ==> !text_lt(#[trigger] s[j].text(), #[trigger] s[i].text())
}

/// Whether a sink has the text `t`.
pub open spec fn has_text(t: Seq<char>) -> spec_fn(SinkView) -> bool {
    |x: SinkView| x.text() == t
}

/// `a` and `b` hold, for each text, the same sinks in the same order.
pub open spec fn same_runs(a: Seq<SinkView>, b: Seq<SinkView>) -> bool {
    forall|t: Seq<char>| #[trigger] a.filter(has_text(t)) == b.filter(has_text(t))
}

proof fn lemma_filter_push(s: Seq<SinkView>, x: SinkView, t: Seq<char>)
    ensures
        s.push(x).filter(has_text(t)) == if x.text() == t {
            s.filter(has_text(t)).push(x)
        } else {
            s.filter(has_text(t))
        },
{
    reveal(Seq::filter);
    assert(s.push(x).drop_last() =~= s);
}

proof fn lemma_filter_none(s: Seq<SinkView>, t: Seq<char>)
    requires
        forall|q: int| 0 <= q < s.len() ==> (#[trigger] s[q]).text() != t,
    ensures
        s.filter(has_text(t)) == Seq::<SinkView>::empty(),
    decreases s.len(),
{
    reveal(Seq::filter);
    if s.len() > 0 {
        lemma_filter_none(s.drop_last(), t);
    }
}

proof fn lemma_insert_runs(ov: Seq<SinkView>, x: SinkView, p: int, t: Seq<char>)
    requires
        0 <= p <= ov.len(),
        forall|q: int| p <= q < ov.len() ==> text_lt(x.text(), #[trigger] ov[q].text()),
    ensures
        ov.insert(p, x).filter(has_text(t)) == if x.text() == t {
            ov.filter(has_text(t)).push(x)
        } else {
            ov.filter(has_text(t))
        },
{
    let head = ov.take(p);
    let tail = ov.skip(p);
    assert(ov =~= head + tail);
    assert(ov.insert(p, x) =~= head.push(x) + tail);
    Seq::filter_distributes_over_add(head, tail, has_text(t));
    Seq::filter_distributes_over_add(head.push(x), tail, has_text(t));
    lemma_filter_push(head, x, t);
    if x.text() == t {
        assert forall|q: int| 0 <= q < tail.len() implies (#[trigger] tail[q]).text() != t by {
            assert(tail[q] == ov[p + q]);
            crate::text::lemma_text_lt_irreflexive(t);
        }
        lemma_filter_none(tail, t);
        assert(tail.filter(has_text(t)) + Seq::<SinkView>::empty() =~= tail.filter(has_text(t)));
        assert(head.filter(has_text(t)) + Seq::<SinkView>::empty() =~= head.filter(has_text(t)));
        assert(head.filter(has_text(t)).push(x) + Seq::<SinkView>::empty() =~= head.filter(has_text(t)).push(x));
    }
}

proof fn lemma_filter_last(s: Seq<SinkView>)
    requires
        s.len() > 0,
    ensures
        s.filter(has_text(s.last().text())) == s.drop_last().filter(has_text(s.last().text())).push(
            s.last(),
        ),
{
    assert(s =~= s.drop_last().push(s.last()));
    lemma_filter_push(s.drop_last(), s.last(), s.last().text());
}

proof fn lemma_some_with_text(s: Seq<SinkView>, t: Seq<char>) -> (j: int)
    requires
        s.filter(has_text(t)).len() > 0,
    ensures
        0 <= j < s.len(),
        s[j].text() == t,
{
    if forall|q: int| 0 <= q < s.len() ==> (#[trigger] s[q]).text() != t {
        lemma_filter_none(s, t);
    }
    choose|j: int| 0 <= j < s.len() && (#[trigger] s[j]).text() == t
}

/// Sorting by text with equal texts kept in order has one result: two
/// sequences sorted by text, with the same sinks of each text in the same
/// order, are equal.
pub proof fn lemma_stable_sort_unique(a: Seq<SinkView>, b: Seq<SinkView>)
    requires
        sorted_by_text(a),
        sorted_by_text(b),
        same_runs(a, b),
    ensures
        a == b,
    decreases a.len() + b.len(),
{
    if a.len() == 0 && b.len() == 0 {
        assert(a =~= b);
    } else if a.len() == 0 || b.len() == 0 {
        let (x, y) = if a.len() == 0 { (b, a) } else { (a, b) };
        let t = x.last().text();
        lemma_filter_last(x);
        assert(x.filter(has_text(t)) == y.filter(has_text(t)));
        assert(y.filter(has_text(t)).len() == 0) by {
            reveal(Seq::filter);
        }
    } else {
        let ta = a.last().text();
        let tb = b.last().text();
        lemma_filter_last(a);
        lemma_filter_last(b);
        assert(a.filter(has_text(ta)) == b.filter(has_text(ta)));
        assert(b.filter(has_text(tb)) == a.filter(has_text(tb)));
        let j = lemma_some_with_text(b, ta);
        if j < b.len() - 1 {
            assert(!text_lt(b[b.len() - 1].text(), b[j].text()));
        }
        assert(!text_lt(tb, ta)) by {
            if j == b.len() - 1 {
                crate::text::lemma_text_lt_irreflexive(ta);
            }
        }
        let i = lemma_some_with_text(a, tb);
        if i < a.len() - 1 {
            assert(!text_lt(a[a.len() - 1].text(), a[i].text()));
        }
        assert(!text_lt(ta, tb)) by {
            if i == a.len() - 1 {
                crate::text::lemma_text_lt_irreflexive(tb);
            }
        }
        if ta != tb {
            crate::text::lemma_text_lt_total(ta, tb);
        }
        assert(ta == tb);
        let a0 = a.drop_last();
        let b0 = b.drop_last();
        assert(a.last() == b.last()) by {
            assert(a0.filter(has_text(ta)).push(a.last()) == b0.filter(has_text(ta)).push(b.last()));
            assert(a0.filter(has_text(ta)).push(a.last()).last() == a.last());
        }
        assert forall|t: Seq<char>| #[trigger] a0.filter(has_text(t)) == b0.filter(has_text(t)) by {
            assert(a =~= a0.push(a.last()));
            assert(b =~= b0.push(b.last()));
            lemma_filter_push(a0, a.last(), t);
            lemma_filter_push(b0, b.last(), t);
            assert(a.filter(has_text(t)) == b.filter(has_text(t)));
            if a.last().text() == t {
                assert(a0.filter(has_text(t)) =~= a.filter(has_text(t)).drop_last());
                assert(b0.filter(has_text(t)) =~= b.filter(has_text(t)).drop_last());
            }
        }
        lemma_stable_sort_unique(a0, b0);
        assert(a =~= a0.push(a.last()));
        assert(b =~= b0.push(b.last()));
    }
}

/// The payload sinks of one parsed JSON document (see `json_tool_return_views`).
pub fn json_tool_return_sinks(v: &Json) -> (r: Vec<PromptSink>)
    ensures
        sink_views(r@) == json_tool_return_views(*v),
{
    let mut out: Vec<PromptSink> = Vec::new();
    if get_field(v, "prompt").is_some() || get_field(v, "messages").is_some() {
        assert(sink_views(out@) =~= json_tool_return_views(*v));
        return out;
    }
    collect_string_leaves(v, String::from_str("$"), &mut out);
    assert(sink_views(out@) =~= json_tool_return_views(*v));
    out
}

/// The payload sinks of one output line (see `line_tool_return_views`).
pub fn line_tool_return_sinks(line: &str) -> (r: Vec<PromptSink>)
    ensures
        sink_views(r@) == line_tool_return_views(line@),
{
    let t = crate::text::trim(line);
    if t.as_str().is_empty() {
        let r = Vec::new();
        assert(sink_views(r@) =~= line_tool_return_views(line@));
        return r;
    }
    match parse_json(t.as_str()) {
        Some(v) => json_tool_return_sinks(&v),
        None => {
            let r = Vec::new();
            assert(sink_views(r@) =~= line_tool_return_views(line@));
            r
        },
    }
}

/// `v` ordered by text; sinks with equal texts keep their order.
pub fn sort_by_text(v: &Vec<PromptSink>) -> (r: Vec<PromptSink>)
    ensures
        sorted_by_text(sink_views(r@)),
        same_runs(sink_views(r@), sink_views(v@)),
        sink_views(r@).to_multiset() == sink_views(v@).to_multiset(),
{
    broadcast use vstd::seq_lib::group_to_multiset_ensures;

    let mut out: Vec<PromptSink> = Vec::new();
    let mut k: usize = 0;
    assert(sink_views(out@) =~= sink_views(v@.subrange(0, 0)));
    while k < v.len()
        invariant
            k <= v.len(),
            sorted_by_text(sink_views(out@)),
            same_runs(sink_views(out@), sink_views(v@.subrange(0, k as int))),
            sink_views(out@).to_multiset() == sink_views(v@.subrange(0, k as int)).to_multiset(),
        decreases v.len() - k,
    {
        let ghost ov = sink_views(out@);
        let ghost x = v@[k as int]@;
        let xt = v[k].as_text();
        let mut p: usize = 0;
        while p < out.len() && compare_text(xt, out[p].as_text()) >= 0
            invariant
                p <= out.len(),
                k < v.len(),
                ov == sink_views(out@),
                xt@ == x.text(),
                x == v@[k as int]@,
                forall|q: int| 0 <= q < p ==> !text_lt(x.text(), #[trigger] ov[q].text()),
            decreases out.len() - p,
        {
            p = p + 1;
        }
        out.insert(p, v[k].duplicate());
        proof {
            let nv = sink_views(out@);
            assert(nv =~= ov.insert(p as int, x));
            assert forall|i: int, j: int| 0 <= i < j < nv.len() implies !text_lt(
                #[trigger] nv[j].text(),
                #[trigger] nv[i].text(),
            ) by {
                if j < p {
                    assert(nv[i] == ov[i] && nv[j] == ov[j]);
                } else if j == p {
                    assert(nv[i] == ov[i]);
                } else if i == p {
                    assert(nv[j] == ov[j - 1]);
                    assert(text_lt(x.text(), ov[p as int].text()));
                    if text_lt(ov[j - 1].text(), x.text()) {
                        lemma_text_lt_transitive(ov[j - 1].text(), x.text(), ov[p as int].text());
                        if j - 1 > p {
                            assert(!text_lt(ov[j - 1].text(), ov[p as int].text()));
                        } else {
                            crate::text::lemma_text_lt_irreflexive(ov[p as int].text());
                        }
                    }
                } else if i < p {
                    assert(nv[i] == ov[i] && nv[j] == ov[j - 1]);
                } else {
                    assert(nv[i] == ov[i - 1] && nv[j] == ov[j - 1]);
                }
            }
            vstd::seq_lib::to_multiset_insert(ov, p as int, x);
            assert(v@.subrange(0, k + 1) =~= v@.subrange(0, k as int).push(v@[k as int]));
            assert(sink_views(v@.subrange(0, k + 1)) =~= sink_views(v@.subrange(0, k as int)).push(x));
            vstd::seq_lib::to_multiset_build(sink_views(v@.subrange(0, k as int)), x);
            assert forall|q: int| p <= q < ov.len() implies text_lt(x.text(), #[trigger] ov[q].text()) by {
                assert(text_lt(x.text(), ov[p as int].text()));
                if q > p {
                    assert(!text_lt(ov[q].text(), ov[p as int].text()));
                    if ov[q].text() != ov[p as int].text() {
                        crate::text::lemma_text_lt_total(ov[q].text(), ov[p as int].text());
                        lemma_text_lt_transitive(x.text(), ov[p as int].text(), ov[q].text());
                    }
                }
            }
            assert forall|t: Seq<char>| #[trigger] nv.filter(has_text(t)) == sink_views(v@.subrange(0, k + 1)).filter(has_text(t)) by {
                lemma_insert_runs(ov, x, p as int, t);
                lemma_filter_push(sink_views(v@.subrange(0, k as int)), x, t);
                assert(ov.filter(has_text(t)) == sink_views(v@.subrange(0, k as int)).filter(has_text(t)));
            }
            assert(nv.to_multiset() == sink_views(v@.subrange(0, k + 1)).to_multiset());
        }
        k = k + 1;
    }
    assert(v@.subrange(0, v.len() as int) =~= v@);
    out
}

/// The payload sinks of a module's standard output, ordered by text.
pub fn extract_tool_return_sinks(stdout: &str) -> (r: Vec<PromptSink>)
    ensures
        sorted_by_text(sink_views(r@)),
        same_runs(sink_views(r@), tool_return_views(lines(stdout@))),
        sink_views(r@).to_multiset() == tool_return_views(lines(stdout@)).to_multiset(),
{
    let ls = split_lines(stdout);
    let ghost lv = views(ls@);
    let mut out: Vec<PromptSink> = Vec::new();
    let mut i: usize = 0;
    while i < ls.len()
        invariant
            i <= ls.len(),
            lv == views(ls@),
            lv == lines(stdout@),
            sink_views(out@) == tool_return_views(lv.subrange(0, i as int)),
        decreases ls.len() - i,
    {
        let mut found = line_tool_return_sinks(ls[i].as_str());
        let ghost before = sink_views(out@);
        let ghost add = sink_views(found@);
        out.append(&mut found);
        assert(sink_views(out@) =~= before + add);
        assert(lv.subrange(0, i + 1).drop_last() =~= lv.subrange(0, i as int));
        assert(lv.subrange(0, i + 1).last() == ls@[i as int]@);
        i = i + 1;
    }
    assert(lv.subrange(0, ls.len() as int) =~= lv);
    sort_by_text(&out)
}

/// A tool-return leaf whose path is not under a metadata-like name.
pub open spec fn is_payload_leaf(k: SinkView) -> bool {
    match k {
        SinkView::ToolReturnLeaf { path, .. } => !is_metadata_path(path),
        _ => false,
    }
}

/// All sinks of `s` are payload leaves.
pub open spec fn all_payload(s: Seq<SinkView>) -> bool {
    forall|i: int| 0 <= i < s.len() ==> is_payload_leaf(#[trigger] s[i])
}

proof fn lemma_all_payload_concat(a: Seq<SinkView>, b: Seq<SinkView>)
    requires
        all_payload(a),
        all_payload(b),
    ensures
        all_payload(a + b),
{
    assert forall|i: int| 0 <= i < (a + b).len() implies is_payload_leaf(#[trigger] (a + b)[i]) by {
        if i < a.len() {
            assert((a + b)[i] == a[i]);
        } else {
            assert((a + b)[i] == b[i - a.len()]);
        }
    }
}

proof fn lemma_leaves_payload(v: Json, path: Seq<char>)
    ensures
        all_payload(leaves(v, path)),
    decreases v,
{
    match v {
        Json::Array(items) => lemma_item_leaves_payload(items, path, items.len() as int),
        Json::Object(members) => lemma_member_leaves_payload(members, path, members.len() as int),
        _ => {},
    }
}

proof fn lemma_item_leaves_payload(items: Vec<Json>, path: Seq<char>, n: int)
    ensures
        all_payload(item_leaves(items, path, n)),
    decreases items, n,
{
    if 0 < n <= items.len() {
        lemma_item_leaves_payload(items, path, n - 1);
        lemma_leaves_payload(items[n - 1], path + "["@ + decimal((n - 1) as nat) + "]"@);
        lemma_all_payload_concat(
            item_leaves(items, path, n - 1),
            leaves(items[n - 1], path + "["@ + decimal((n - 1) as nat) + "]"@),
        );
    }
}

proof fn lemma_member_leaves_payload(members: Vec<(String, Json)>, path: Seq<char>, n: int)
    ensures
        all_payload(member_leaves(members, path, n)),
    decreases members, n,
{
    if 0 < n <= members.len() {
        lemma_member_leaves_payload(members, path, n - 1);
        lemma_leaves_payload(members[n - 1].1, path + "."@ + members[n - 1].0@);
        lemma_all_payload_concat(
            member_leaves(members, path, n - 1),
            leaves(members[n - 1].1, path + "."@ + members[n - 1].0@),
        );
    }
}

/// A leaf under a metadata-like name (a path ending in `.id`, `.uuid`,
/// `.timestamp`, `.status`, `.code` or `.version`, in any letter case) is
/// never a sink, however long: every tool-return sink of any output is a leaf
/// whose path ends in none of them.
pub proof fn lemma_metadata_never_extracted(ls: Seq<Seq<char>>)
    ensures
        all_payload(tool_return_views(ls)),
    decreases ls.len(),
{
    if ls.len() > 0 {
        lemma_metadata_never_extracted(ls.drop_last());
        let t = trimmed(ls.last());
        match parsed_json(t) {
            Some(v) => lemma_leaves_payload(v, "$"@),
            None => {},
        }
        lemma_all_payload_concat(tool_return_views(ls.drop_last()), line_tool_return_views(ls.last()));
    }
}

} // verus!
