//! Flow detection: which source contents reappear in which sink texts.

use vstd::prelude::*;
use vstd::string::StringExecFns;

use crate::scan::prompt_sink::{sink_views, PromptSink, SinkView};
use crate::taint::source::{source_views, SourceView, TaintSource};
use crate::text::{
    chars_of, compare_text, contains, contains_chars, lemma_text_lt_asymmetric,
    lemma_text_lt_irreflexive, lemma_text_lt_transitive, string_of, text_lt,
    trim_bounds, trimmed, views,
};

verus! {

/// One detected correlation between a source and a category of sink.
pub struct FlowMatch {
    pub source_id: String,
    pub sink_type: String,
    pub snippet: String,
    pub confidence: String,
}

/// The texts of a `FlowMatch`.
pub struct FlowView {
    pub source_id: Seq<char>,
    pub sink_type: Seq<char>,
    pub snippet: Seq<char>,
    pub confidence: Seq<char>,
}

impl View for FlowMatch {
    type V = FlowView;

    open spec fn view(&self) -> FlowView {
        FlowView {
            source_id: self.source_id@,
            sink_type: self.sink_type@,
            snippet: self.snippet@,
            confidence: self.confidence@,
        }
    }
}

/// The views of a sequence of matches.
pub open spec fn flow_views(s: Seq<FlowMatch>) -> Seq<FlowView> {
    s.map_values(|f: FlowMatch| f@)
}

impl FlowMatch {
    /// A copy with the same texts.
    pub fn duplicate(&self) -> (r: FlowMatch)
        ensures
            r@ == self@,
    {
        FlowMatch {
            source_id: self.source_id.clone(),
            sink_type: self.sink_type.clone(),
            snippet: self.snippet.clone(),
            confidence: self.confidence.clone(),
        }
    }
}

/// The shortest snippet, after trimming, that takes part in matching.
pub const MIN_SNIPPET_LEN: usize = 4;

/// The shortest snippet that may match a tool-return leaf.
pub const MIN_LEAF_SNIPPET_LEN: usize = 12;

/// `x` as a snippet, unless it is shorter than the minimum after trimming.
pub open spec fn kept(x: Seq<char>) -> Seq<Seq<char>> {
    if trimmed(x).len() >= MIN_SNIPPET_LEN {
        seq![x]
    } else {
        Seq::empty()
    }
}

/// The snippet candidates of a source's content, in the order they are tried:
/// the trimmed content, its prefixes of 16, 24 and 32 characters, and, above
/// 48 characters, the 24 characters around its middle.
pub open spec fn snippets(content: Seq<char>) -> Seq<Seq<char>> {
    let t = trimmed(content);
    let n = t.len() as int;
    (if n >= 4 { kept(t) } else { Seq::empty() }) + (if n >= 16 { kept(t.take(16)) } else { Seq::empty() })
        + (if n >= 24 { kept(t.take(24)) } else { Seq::empty() }) + (if n >= 32 { kept(t.take(32)) } else { Seq::empty() })
        + (if n > 48 { kept(t.subrange(n / 2 - 12, n / 2 + 12)) } else { Seq::empty() })
}

/// Appends `cs[from..to]` to `out` if it is long enough after trimming.
fn push_kept(out: &mut Vec<String>, cs: &Vec<char>, from: usize, to: usize)
    requires
        from <= to <= cs.len(),
    ensures
        views(final(out)@) == views(old(out)@) + kept(cs@.subrange(from as int, to as int)),
{
    let piece = string_of(cs, from, to);
    let pcs = chars_of(piece.as_str());
    let (a, b) = trim_bounds(&pcs);
    let ghost before = views(out@);
    if b - a >= MIN_SNIPPET_LEN {
        out.push(piece);
        assert(views(out@) =~= before + kept(cs@.subrange(from as int, to as int)));
    } else {
        assert(views(out@) =~= before + kept(cs@.subrange(from as int, to as int)));
    }
}

/// The snippet candidates of `content` (see `snippets`).
pub fn make_snippets(content: &str) -> (r: Vec<String>)
    ensures
        views(r@) == snippets(content@),
{
    let cs0 = chars_of(content);
    let (a, b) = trim_bounds(&cs0);
    let cs = {
        let s = string_of(&cs0, a, b);
        chars_of(s.as_str())
    };
    let n = cs.len();
    let ghost t = trimmed(content@);
    assert(cs@ == t);
    let mut out: Vec<String> = Vec::new();
    let ghost acc0 = views(out@);
    if n >= 4 {
        push_kept(&mut out, &cs, 0, n);
        assert(cs@.subrange(0, n as int) =~= t);
    }
    let ghost acc1 = views(out@);
    assert(acc1 =~= acc0 + (if n >= 4 { kept(t) } else { Seq::empty() }));
    if n >= 16 {
        push_kept(&mut out, &cs, 0, 16);
        assert(cs@.subrange(0, 16) =~= t.take(16));
    }
    let ghost acc2 = views(out@);
    assert(acc2 =~= acc1 + (if n >= 16 { kept(t.take(16)) } else { Seq::empty() }));
    if n >= 24 {
        push_kept(&mut out, &cs, 0, 24);
        assert(cs@.subrange(0, 24) =~= t.take(24));
    }
    let ghost acc3 = views(out@);
    assert(acc3 =~= acc2 + (if n >= 24 { kept(t.take(24)) } else { Seq::empty() }));
    if n >= 32 {
        push_kept(&mut out, &cs, 0, 32);
        assert(cs@.subrange(0, 32) =~= t.take(32));
    }
    let ghost acc4 = views(out@);
    assert(acc4 =~= acc3 + (if n >= 32 { kept(t.take(32)) } else { Seq::empty() }));
    if n > 48 {
        let mid = n / 2;
        push_kept(&mut out, &cs, mid - 12, mid + 12);
    }
    let ghost acc5 = views(out@);
    assert(acc5 =~= acc4 + (if n > 48 { kept(t.subrange(n / 2 - 12, n / 2 + 12)) } else { Seq::empty() }));
    assert(acc0 =~= Seq::<Seq<char>>::empty());
    assert(acc5 =~= snippets(content@));
    out
}

/// The shortest snippet that may match the given sink.
pub open spec fn min_match_len(sink: SinkView) -> nat {
    match sink {
        SinkView::ToolReturnLeaf { .. } => MIN_LEAF_SNIPPET_LEN as nat,
        _ => MIN_SNIPPET_LEN as nat,
    }
}

/// The first of `snips` that is at least `min` long and occurs in `text`.
pub open spec fn first_hit(snips: Seq<Seq<char>>, text: Seq<char>, min: nat) -> Option<Seq<char>>
    decreases snips.len(),
{
    if snips.len() == 0 {
        None
    } else if snips[0].len() >= min && contains(text, snips[0]) {
        Some(snips[0])
    } else {
        first_hit(snips.drop_first(), text, min)
    }
}

/// The snippet by which `src` reaches `sink`, if any. A declared fetch takes
/// part through its identity only, never through its placeholder content.
pub open spec fn hit(src: SourceView, sink: SinkView) -> Option<Seq<char>> {
    match src {
        SourceView::HttpFetchIntent { .. } => None,
        _ => first_hit(snippets(src.content()), sink.text(), min_match_len(sink)),
    }
}

/// The match that `hit` records.
pub open spec fn flow_of(src: SourceView, sink: SinkView, snippet: Seq<char>) -> FlowView {
    FlowView {
        source_id: src.id(),
        sink_type: sink.sink_type(),
        snippet,
        confidence: "high"@,
    }
}

/// The matches of one source against the sinks, in sink order.
pub open spec fn source_flows(src: SourceView, sinks: Seq<SinkView>) -> Seq<FlowView>
    decreases sinks.len(),
{
    if sinks.len() == 0 {
        Seq::empty()
    } else {
        let prev = source_flows(src, sinks.drop_last());
        match hit(src, sinks.last()) {
            Some(snippet) => prev.push(flow_of(src, sinks.last(), snippet)),
            None => prev,
        }
    }
}

/// All matches before deduplication, source by source.
pub open spec fn raw_flows(sources: Seq<SourceView>, sinks: Seq<SinkView>) -> Seq<FlowView>
    decreases sources.len(),
{
    if sources.len() == 0 {
        Seq::empty()
    } else {
        raw_flows(sources.drop_last(), sinks) + source_flows(sources.last(), sinks)
    }
}

/// Index of the first snippet of `snips` that matches `text`.
fn find_hit(snips: &Vec<String>, text: &Vec<char>, min: usize) -> (r: Option<usize>)
    ensures
        match r {
            Some(k) => k < snips.len() && first_hit(views(snips@), text@, min as nat) == Some(
                snips@[k as int]@,
            ),
            None => first_hit(views(snips@), text@, min as nat) is None,
        },
{
    let ghost all = views(snips@);
    let mut k: usize = 0;
    assert(all.subrange(0, all.len() as int) =~= all);
    while k < snips.len()
        invariant
            k <= snips.len(),
            all == views(snips@),
            first_hit(all, text@, min as nat) == first_hit(all.subrange(k as int, all.len() as int), text@, min as nat),
        decreases snips.len() - k,
    {
        let cs = chars_of(snips[k].as_str());
        let ghost rest = all.subrange(k as int, all.len() as int);
        assert(rest[0] == snips@[k as int]@);
        if cs.len() >= min && contains_chars(text, &cs) {
            return Some(k);
        }
        assert(rest.drop_first() =~= all.subrange(k + 1, all.len() as int));
        k = k + 1;
    }
    None
}

/// The shortest snippet that may match `sink`.
fn min_len_for(sink: &PromptSink) -> (r: usize)
    ensures
        r as nat == min_match_len(sink@),
{
    match sink {
        PromptSink::ToolReturnLeaf { .. } => MIN_LEAF_SNIPPET_LEN,
        _ => MIN_SNIPPET_LEN,
    }
}

/// Every match of every source against every sink, before deduplication.
fn all_flows(sources: &Vec<TaintSource>, sinks: &Vec<PromptSink>) -> (r: Vec<FlowMatch>)
    ensures
        r@.map_values(|f: FlowMatch| f@) == raw_flows(source_views(sources@), sink_views(sinks@)),
{
    let ghost sv = source_views(sources@);
    let ghost kv = sink_views(sinks@);
    let mut out: Vec<FlowMatch> = Vec::new();
    let mut i: usize = 0;
    while i < sources.len()
        invariant
            i <= sources.len(),
            sv == source_views(sources@),
            kv == sink_views(sinks@),
            out@.map_values(|f: FlowMatch| f@) == raw_flows(sv.subrange(0, i as int), kv),
        decreases sources.len() - i,
    {
        let src = &sources[i];
        let ghost before = out@.map_values(|f: FlowMatch| f@);
        let is_fetch = match src {
            TaintSource::HttpFetchIntent { .. } => true,
            _ => false,
        };
        let snips = make_snippets(src.content());
        let mut j: usize = 0;
        while j < sinks.len()
            invariant
                i < sources.len(),
                j <= sinks.len(),
                src == &sources@[i as int],
                is_fetch == (src is HttpFetchIntent),
                views(snips@) == snippets(src.content_view()),
                kv == sink_views(sinks@),
                out@.map_values(|f: FlowMatch| f@) == before + source_flows(src@, kv.subrange(0, j as int)),
            decreases sinks.len() - j,
        {
            let sink = &sinks[j];
            let ghost prev = out@.map_values(|f: FlowMatch| f@);
            assert(kv.subrange(0, j + 1).drop_last() =~= kv.subrange(0, j as int));
            assert(kv.subrange(0, j + 1).last() == sinks@[j as int]@);
            if !is_fetch {
                let text = chars_of(sink.as_text());
                let min = min_len_for(sink);
                match find_hit(&snips, &text, min) {
                    Some(k) => {
                        let f = FlowMatch {
                            source_id: src.short_id(),
                            sink_type: sink.sink_type(),
                            snippet: snips[k].clone(),
                            confidence: String::from_str("high"),
                        };
                        out.push(f);
                        assert(out@.map_values(|f: FlowMatch| f@) =~= prev.push(f@));
                    },
                    None => {},
                }
            }
            j = j + 1;
        }
        assert(kv.subrange(0, sinks.len() as int) =~= kv);
        assert(sv.subrange(0, i + 1).drop_last() =~= sv.subrange(0, i as int));
        assert(sv.subrange(0, i + 1).last() == sources@[i as int]@);
        i = i + 1;
    }
    assert(sv.subrange(0, sources.len() as int) =~= sv);
    out
}

/// Two matches concern the same source and the same category of sink.
pub open spec fn same_key(a: FlowView, b: FlowView) -> bool {
    a.source_id == b.source_id && a.sink_type == b.sink_type
}

/// `a` comes before `b` by source id, then by sink type.
pub open spec fn key_lt(a: FlowView, b: FlowView) -> bool {
    text_lt(a.source_id, b.source_id) || (a.source_id == b.source_id && text_lt(
        a.sink_type,
        b.sink_type,
    ))
}

/// No match before position `k` of `raw` has the key of `raw[k]`.
pub open spec fn first_of_key(raw: Seq<FlowView>, k: int) -> bool {
    forall|j: int| #![trigger raw[j]] 0 <= j < k ==> !same_key(raw[j], raw[k])
}

/// Each match of `out` comes before the next by key.
pub open spec fn sorted_by_key(out: Seq<FlowView>) -> bool {
    forall|i: int, j: int| 0 <= i < j < out.len() ==> key_lt(#[trigger] out[i], #[trigger] out[j])
}

/// `x` is a match of `raw` that no earlier match of `raw` shares a key with.
#[verifier::opaque]
pub open spec fn is_first_match(raw: Seq<FlowView>, x: FlowView) -> bool {
    exists|k: int| #![trigger raw[k]] 0 <= k < raw.len() && raw[k] == x && first_of_key(raw, k)
}

/// Some match of `out` has the key of `x`.
#[verifier::opaque]
pub open spec fn has_key(out: Seq<FlowView>, x: FlowView) -> bool {
    exists|i: int| #![trigger out[i]] 0 <= i < out.len() && same_key(out[i], x)
}

/// Each match of `out` is the first match of `raw` with its key.
pub open spec fn firsts_of(raw: Seq<FlowView>, out: Seq<FlowView>) -> bool {
    forall|i: int| 0 <= i < out.len() ==> is_first_match(raw, #[trigger] out[i])
}

/// Each key of `raw` has a match in `out`.
pub open spec fn keys_covered(raw: Seq<FlowView>, out: Seq<FlowView>) -> bool {
    forall|k: int| 0 <= k < raw.len() ==> has_key(out, #[trigger] raw[k])
}

/// `out` holds, sorted by key, the first match of `raw` for each key that
/// occurs in `raw`, and nothing else.
pub open spec fn deduplicated(raw: Seq<FlowView>, out: Seq<FlowView>) -> bool {
    &&& sorted_by_key(out)
    &&& firsts_of(raw, out)
    &&& keys_covered(raw, out)
}

pub proof fn lemma_key_lt_irreflexive(a: FlowView, b: FlowView)
    requires
        same_key(a, b),
    ensures
        !key_lt(a, b),
{
    lemma_text_lt_irreflexive(a.source_id);
    lemma_text_lt_irreflexive(a.sink_type);
}

pub proof fn lemma_key_lt_transitive(a: FlowView, b: FlowView, c: FlowView)
    requires
        key_lt(a, b),
        key_lt(b, c),
    ensures
        key_lt(a, c),
{
    if text_lt(a.source_id, b.source_id) && text_lt(b.source_id, c.source_id) {
        lemma_text_lt_transitive(a.source_id, b.source_id, c.source_id);
    }
    if a.source_id == b.source_id && b.source_id == c.source_id {
        lemma_text_lt_irreflexive(a.source_id);
        lemma_text_lt_transitive(a.sink_type, b.sink_type, c.sink_type);
    }
}

pub proof fn lemma_key_lt_asymmetric(a: FlowView, b: FlowView)
    requires
        key_lt(a, b),
    ensures
        !key_lt(b, a),
{
    if text_lt(a.source_id, b.source_id) {
        lemma_text_lt_asymmetric(a.source_id, b.source_id);
        lemma_text_lt_irreflexive(a.source_id);
    } else {
        lemma_text_lt_asymmetric(a.sink_type, b.sink_type);
        lemma_text_lt_irreflexive(a.source_id);
    }
}

/// Compares two matches by key: -1, 0 or 1.
fn compare_key(a: &FlowMatch, b: &FlowMatch) -> (r: i8)
    ensures
        r == 0 <==> same_key(a@, b@),
        r < 0 <==> key_lt(a@, b@),
        r > 0 <==> key_lt(b@, a@),
{
    let c = compare_text(a.source_id.as_str(), b.source_id.as_str());
    if c != 0 {
        proof {
            if c < 0 {
                lemma_text_lt_asymmetric(a@.source_id, b@.source_id);
            } else {
                lemma_text_lt_asymmetric(b@.source_id, a@.source_id);
            }
        }
        c
    } else {
        proof {
            lemma_text_lt_irreflexive(a@.source_id);
        }
        compare_text(a.sink_type.as_str(), b.sink_type.as_str())
    }
}

proof fn lemma_firsts_extend(pre: Seq<FlowView>, f: FlowView, j: int)
    requires
        0 <= j < pre.len(),
        first_of_key(pre, j),
    ensures
        first_of_key(pre.push(f), j),
        pre.push(f)[j] == pre[j],
{
    let next = pre.push(f);
    assert forall|m: int| #![trigger next[m]] 0 <= m < j implies !same_key(next[m], next[j]) by {
        assert(next[m] == pre[m]);
    }
}

proof fn lemma_first_at(raw: Seq<FlowView>, out: Seq<FlowView>, i: int) -> (k: int)
    requires
        firsts_of(raw, out),
        0 <= i < out.len(),
    ensures
        0 <= k < raw.len(),
        raw[k] == out[i],
        first_of_key(raw, k),
{
    assert(is_first_match(raw, out[i]));
    reveal(is_first_match);
    choose|k: int| #![trigger raw[k]] 0 <= k < raw.len() && raw[k] == out[i] && first_of_key(raw, k)
}

proof fn lemma_first_intro(raw: Seq<FlowView>, k: int)
    requires
        0 <= k < raw.len(),
        first_of_key(raw, k),
    ensures
        is_first_match(raw, raw[k]),
{
    reveal(is_first_match);
}

proof fn lemma_covered_at(raw: Seq<FlowView>, out: Seq<FlowView>, m: int) -> (i: int)
    requires
        keys_covered(raw, out),
        0 <= m < raw.len(),
    ensures
        0 <= i < out.len(),
        same_key(out[i], raw[m]),
{
    assert(has_key(out, raw[m]));
    reveal(has_key);
    choose|i: int| #![trigger out[i]] 0 <= i < out.len() && same_key(out[i], raw[m])
}

proof fn lemma_covered_intro(out: Seq<FlowView>, i: int, x: FlowView)
    requires
        0 <= i < out.len(),
        same_key(out[i], x),
    ensures
        has_key(out, x),
{
    reveal(has_key);
}

proof fn lemma_dedup_keep(pre: Seq<FlowView>, ov: Seq<FlowView>, f: FlowView, p: int)
    requires
        deduplicated(pre, ov),
        0 <= p < ov.len(),
        same_key(ov[p], f),
    ensures
        deduplicated(pre.push(f), ov),
{
    let next = pre.push(f);
    let k = pre.len() as int;
    assert forall|i: int| 0 <= i < ov.len() implies is_first_match(next, #[trigger] ov[i]) by {
        let j = lemma_first_at(pre, ov, i);
        lemma_firsts_extend(pre, f, j);
        lemma_first_intro(next, j);
    }
    assert forall|m: int| 0 <= m < next.len() implies has_key(ov, #[trigger] next[m]) by {
        if m < k {
            assert(next[m] == pre[m]);
            let w = lemma_covered_at(pre, ov, m);
            lemma_covered_intro(ov, w, next[m]);
        } else {
            lemma_covered_intro(ov, p, next[m]);
        }
    }
}

proof fn lemma_sorted_insert(ov: Seq<FlowView>, f: FlowView, p: int)
    requires
        sorted_by_key(ov),
        0 <= p <= ov.len(),
        forall|q: int| 0 <= q < p ==> key_lt(#[trigger] ov[q], f),
        p < ov.len() ==> key_lt(f, ov[p]),
    ensures
        sorted_by_key(ov.insert(p, f)),
        forall|q: int| #![trigger ov[q]] 0 <= q < ov.len() ==> !same_key(ov[q], f),
{
    let nv = ov.insert(p, f);
    assert forall|q: int| p <= q < ov.len() implies key_lt(f, #[trigger] ov[q]) by {
        if q > p {
            lemma_key_lt_transitive(f, ov[p], ov[q]);
        }
    }
    assert forall|q: int| #![trigger ov[q]] 0 <= q < ov.len() implies !same_key(ov[q], f) by {
        if same_key(ov[q], f) {
            if q < p {
                lemma_key_lt_irreflexive(ov[q], f);
            } else {
                lemma_key_lt_irreflexive(f, ov[q]);
            }
        }
    }
    assert forall|i: int, j: int| 0 <= i < j < nv.len() implies key_lt(#[trigger] nv[i], #[trigger] nv[j]) by {
        if j < p {
            assert(nv[i] == ov[i] && nv[j] == ov[j]);
        } else if j == p {
            assert(nv[i] == ov[i]);
        } else if i < p {
            assert(nv[i] == ov[i] && nv[j] == ov[j - 1]);
            lemma_key_lt_transitive(nv[i], f, nv[j]);
        } else if i == p {
            assert(nv[j] == ov[j - 1]);
        } else {
            assert(nv[i] == ov[i - 1] && nv[j] == ov[j - 1]);
        }
    }
}

proof fn lemma_dedup_insert(pre: Seq<FlowView>, ov: Seq<FlowView>, f: FlowView, p: int)
    requires
        deduplicated(pre, ov),
        0 <= p <= ov.len(),
        forall|q: int| 0 <= q < p ==> key_lt(#[trigger] ov[q], f),
        p < ov.len() ==> key_lt(f, ov[p]),
    ensures
        deduplicated(pre.push(f), ov.insert(p, f)),
{
    let next = pre.push(f);
    let nv = ov.insert(p, f);
    let k = pre.len() as int;
    lemma_sorted_insert(ov, f, p);
    assert(first_of_key(next, k)) by {
        assert forall|m: int| #![trigger next[m]] 0 <= m < k implies !same_key(next[m], next[k]) by {
            assert(next[m] == pre[m]);
            let w = lemma_covered_at(pre, ov, m);
            if same_key(next[m], f) {
                assert(same_key(ov[w], f));
            }
        }
    }
    assert forall|i: int| 0 <= i < nv.len() implies is_first_match(next, #[trigger] nv[i]) by {
        if i == p {
            assert(next[k] == nv[i]);
            lemma_first_intro(next, k);
        } else {
            let oi = if i < p { i } else { i - 1 };
            assert(nv[i] == ov[oi]);
            let j = lemma_first_at(pre, ov, oi);
            lemma_firsts_extend(pre, f, j);
            lemma_first_intro(next, j);
        }
    }
    assert forall|m: int| 0 <= m < next.len() implies has_key(nv, #[trigger] next[m]) by {
        if m < k {
            assert(next[m] == pre[m]);
            let w = lemma_covered_at(pre, ov, m);
            let wi = if w < p { w } else { w + 1 };
            assert(nv[wi] == ov[w]);
            lemma_covered_intro(nv, wi, next[m]);
        } else {
            assert(nv[p] == next[m]);
            lemma_covered_intro(nv, p, next[m]);
        }
    }
}

/// Sorts `raw` by key and keeps the first match of each key.
fn dedup_flows(raw: &Vec<FlowMatch>) -> (r: Vec<FlowMatch>)
    ensures
        deduplicated(raw@.map_values(|f: FlowMatch| f@), r@.map_values(|f: FlowMatch| f@)),
{
    let ghost rv = raw@.map_values(|f: FlowMatch| f@);
    let mut out: Vec<FlowMatch> = Vec::new();
    let mut k: usize = 0;
    while k < raw.len()
        invariant
            k <= raw.len(),
            rv == raw@.map_values(|f: FlowMatch| f@),
            deduplicated(rv.subrange(0, k as int), out@.map_values(|f: FlowMatch| f@)),
        decreases raw.len() - k,
    {
        let ghost ov = out@.map_values(|f: FlowMatch| f@);
        let ghost f = rv[k as int];
        assert(rv.subrange(0, k + 1) =~= rv.subrange(0, k as int).push(f));
        let mut p: usize = 0;
        while p < out.len() && compare_key(&out[p], &raw[k]) < 0
            invariant
                p <= out.len(),
                k < raw.len(),
                ov == out@.map_values(|f: FlowMatch| f@),
                f == raw@[k as int]@,
                forall|q: int| 0 <= q < p ==> key_lt(#[trigger] ov[q], f),
            decreases out.len() - p,
        {
            p = p + 1;
        }
        if p < out.len() && compare_key(&out[p], &raw[k]) == 0 {
            proof {
                lemma_dedup_keep(rv.subrange(0, k as int), ov, f, p as int);
            }
        } else {
            out.insert(p, raw[k].duplicate());
            proof {
                assert(out@.map_values(|f: FlowMatch| f@) =~= ov.insert(p as int, f));
                lemma_dedup_insert(rv.subrange(0, k as int), ov, f, p as int);
            }
        }
        k = k + 1;
    }
    assert(rv.subrange(0, raw.len() as int) =~= rv);
    out
}

/// Matches every source against every sink and keeps, sorted by
/// `(source_id, sink_type)`, the first match of each such pair.
pub fn detect_flows(sources: &Vec<TaintSource>, sinks: &Vec<PromptSink>) -> (r: Vec<FlowMatch>)
    ensures
        deduplicated(raw_flows(source_views(sources@), sink_views(sinks@)), flow_views(r@)),
{
    let raw = all_flows(sources, sinks);
    dedup_flows(&raw)
}

proof fn lemma_no_sinks_no_raw_flows(sources: Seq<SourceView>, sinks: Seq<SinkView>)
    requires
        sinks.len() == 0,
    ensures
        raw_flows(sources, sinks).len() == 0,
    decreases sources.len(),
{
    if sources.len() > 0 {
        lemma_no_sinks_no_raw_flows(sources.drop_last(), sinks);
    }
}

/// Without sinks there are no flows: whatever the sources, the deduplicated
/// matches against an empty list of sinks are empty.
pub proof fn lemma_no_sink_no_flow(sources: Seq<SourceView>, sinks: Seq<SinkView>, flows: Seq<FlowView>)
    requires
        sinks.len() == 0,
        deduplicated(raw_flows(sources, sinks), flows),
    ensures
        flows.len() == 0,
{
    lemma_no_sinks_no_raw_flows(sources, sinks);
    if flows.len() > 0 {
        let k = lemma_first_at(raw_flows(sources, sinks), flows, 0);
    }
}

/// No two deduplicated matches share a `(source_id, sink_type)` pair.
pub proof fn lemma_flow_keys_unique(raw: Seq<FlowView>, flows: Seq<FlowView>)
    requires
        deduplicated(raw, flows),
    ensures
        forall|i: int, j: int|
            0 <= i < flows.len() && 0 <= j < flows.len() && i != j ==> !same_key(
                #[trigger] flows[i],
                #[trigger] flows[j],
            ),
{
    assert forall|i: int, j: int|
        0 <= i < flows.len() && 0 <= j < flows.len() && i != j implies !same_key(
            #[trigger] flows[i],
            #[trigger] flows[j],
        ) by {
        if i < j {
            if same_key(flows[i], flows[j]) {
                lemma_key_lt_irreflexive(flows[i], flows[j]);
            }
        } else {
            if same_key(flows[i], flows[j]) {
                assert(same_key(flows[j], flows[i]));
                lemma_key_lt_irreflexive(flows[j], flows[i]);
            }
        }
    }
}

proof fn lemma_same_key_equal(raw: Seq<FlowView>, a: Seq<FlowView>, b: Seq<FlowView>, i: int, j: int)
    requires
        deduplicated(raw, a),
        deduplicated(raw, b),
        0 <= i < a.len(),
        0 <= j < b.len(),
        same_key(a[i], b[j]),
    ensures
        a[i] == b[j],
{
    let k = lemma_first_at(raw, a, i);
    let m = lemma_first_at(raw, b, j);
    if k < m {
        assert(!same_key(raw[k], raw[m]));
    } else if m < k {
        assert(!same_key(raw[m], raw[k]));
    }
}

proof fn lemma_match_in(raw: Seq<FlowView>, a: Seq<FlowView>, b: Seq<FlowView>, i: int) -> (j: int)
    requires
        deduplicated(raw, a),
        deduplicated(raw, b),
        0 <= i < a.len(),
    ensures
        0 <= j < b.len(),
        b[j] == a[i],
{
    let k = lemma_first_at(raw, a, i);
    let j = lemma_covered_at(raw, b, k);
    lemma_same_key_equal(raw, b, a, j, i);
    j
}

proof fn lemma_agree_upto(raw: Seq<FlowView>, a: Seq<FlowView>, b: Seq<FlowView>, d: int)
    requires
        deduplicated(raw, a),
        deduplicated(raw, b),
        0 <= d <= a.len(),
        d <= b.len(),
    ensures
        forall|i: int| 0 <= i < d ==> a[i] == b[i],
    decreases d,
{
    if d > 0 {
        lemma_agree_upto(raw, a, b, d - 1);
        let e = d - 1;
        let j = lemma_match_in(raw, a, b, e);
        let i = lemma_match_in(raw, b, a, e);
        if j < e {
            assert(a[j] == b[j]);
            assert(key_lt(a[j], a[e]));
            lemma_key_lt_irreflexive(a[j], a[e]);
        }
        if i < e {
            assert(a[i] == b[i]);
            assert(key_lt(b[i], b[e]));
            lemma_key_lt_irreflexive(b[i], b[e]);
        }
        if j > e && i > e {
            assert(key_lt(b[e], b[j]));
            assert(key_lt(a[e], a[i]));
            lemma_key_lt_asymmetric(b[e], a[e]);
        }
    }
}

/// Deduplication has one result: two deduplications of the same matches
/// are equal.
pub proof fn lemma_flows_unique(raw: Seq<FlowView>, a: Seq<FlowView>, b: Seq<FlowView>)
    requires
        deduplicated(raw, a),
        deduplicated(raw, b),
    ensures
        a == b,
{
    if a.len() <= b.len() {
        lemma_agree_upto(raw, a, b, a.len() as int);
        if a.len() < b.len() {
            let n = a.len() as int;
            let i = lemma_match_in(raw, b, a, n);
            assert(b[i] == a[i]);
            assert(key_lt(b[i], b[n]));
            lemma_key_lt_irreflexive(b[i], b[n]);
        }
    } else {
        lemma_agree_upto(raw, a, b, b.len() as int);
        let n = b.len() as int;
        let i = lemma_match_in(raw, a, b, n);
        assert(a[i] == b[i]);
        assert(key_lt(a[i], a[n]));
        lemma_key_lt_irreflexive(a[i], a[n]);
    }
    assert(a =~= b);
}

proof fn lemma_first_hit_none(snips: Seq<Seq<char>>, text: Seq<char>, min: nat)
    requires
        min >= MIN_SNIPPET_LEN,
        forall|x: int| 0 <= x < snips.len() ==> !(snips[x].len() >= MIN_SNIPPET_LEN && contains(text, #[trigger] snips[x])),
    ensures
        first_hit(snips, text, min) is None,
    decreases snips.len(),
{
    if snips.len() > 0 {
        assert forall|x: int| 0 <= x < snips.drop_first().len() implies !(snips.drop_first()[x].len()
            >= MIN_SNIPPET_LEN && contains(text, #[trigger] snips.drop_first()[x])) by {
            assert(snips.drop_first()[x] == snips[x + 1]);
        }
        lemma_first_hit_none(snips.drop_first(), text, min);
    }
}

proof fn lemma_source_flows_empty(src: SourceView, sinks: Seq<SinkView>)
    requires
        forall|j: int| 0 <= j < sinks.len() ==> hit(src, #[trigger] sinks[j]) is None,
    ensures
        source_flows(src, sinks).len() == 0,
    decreases sinks.len(),
{
    if sinks.len() > 0 {
        assert(hit(src, sinks[sinks.len() - 1]) is None);
        assert forall|j: int| 0 <= j < sinks.drop_last().len() implies hit(src, #[trigger] sinks.drop_last()[j]) is None by {
            assert(sinks.drop_last()[j] == sinks[j]);
        }
        lemma_source_flows_empty(src, sinks.drop_last());
    }
}

proof fn lemma_raw_flows_empty(sources: Seq<SourceView>, sinks: Seq<SinkView>)
    requires
        forall|i: int, j: int| 0 <= i < sources.len() && 0 <= j < sinks.len() ==> hit(#[trigger] sources[i], #[trigger] sinks[j]) is None,
    ensures
        raw_flows(sources, sinks).len() == 0,
    decreases sources.len(),
{
    if sources.len() > 0 {
        let last = sources.len() - 1;
        assert forall|j: int| 0 <= j < sinks.len() implies hit(sources[last], #[trigger] sinks[j]) is None by {
            assert(hit(sources[last], sinks[j]) is None);
        }
        lemma_source_flows_empty(sources.last(), sinks);
        assert forall|i: int, j: int| 0 <= i < sources.drop_last().len() && 0 <= j < sinks.len() implies hit(
            #[trigger] sources.drop_last()[i],
            #[trigger] sinks[j],
        ) is None by {
            assert(sources.drop_last()[i] == sources[i]);
        }
        lemma_raw_flows_empty(sources.drop_last(), sinks);
    }
}

/// Without a shared substring there is no flow: where no snippet of any
/// source's content, of at least the minimum length, occurs in the text of
/// any sink, the deduplicated flows are empty.
pub proof fn lemma_no_shared_snippet_no_flow(
    sources: Seq<SourceView>,
    sinks: Seq<SinkView>,
    flows: Seq<FlowView>,
)
    requires
        forall|i: int, j: int, x: int|
            0 <= i < sources.len() && 0 <= j < sinks.len() && 0 <= x < snippets(sources[i].content()).len()
                ==> !(snippets(sources[i].content())[x].len() >= MIN_SNIPPET_LEN && contains(
                (#[trigger] sinks[j]).text(),
                #[trigger] snippets((#[trigger] sources[i]).content())[x],
            )),
        deduplicated(raw_flows(sources, sinks), flows),
    ensures
        flows.len() == 0,
{
    assert forall|i: int, j: int| 0 <= i < sources.len() && 0 <= j < sinks.len() implies hit(
        #[trigger] sources[i],
        #[trigger] sinks[j],
    ) is None by {
        let snips = snippets(sources[i].content());
        assert forall|x: int| 0 <= x < snips.len() implies !(snips[x].len() >= MIN_SNIPPET_LEN && contains(
            sinks[j].text(),
            #[trigger] snips[x],
        )) by {}
        lemma_first_hit_none(snips, sinks[j].text(), min_match_len(sinks[j]));
    }
    lemma_raw_flows_empty(sources, sinks);
    if flows.len() > 0 {
        let k = lemma_first_at(raw_flows(sources, sinks), flows, 0);
    }
}

/// Every snippet of `s` is at least `m` long.
pub open spec fn all_at_least(s: Seq<Seq<char>>, m: nat) -> bool {
    forall|x: int| 0 <= x < s.len() ==> (#[trigger] s[x]).len() >= m
}

proof fn lemma_at_least_concat(a: Seq<Seq<char>>, b: Seq<Seq<char>>, m: nat)
    requires
        all_at_least(a, m),
        all_at_least(b, m),
    ensures
        all_at_least(a + b, m),
{
    assert forall|x: int| 0 <= x < (a + b).len() implies (#[trigger] (a + b)[x]).len() >= m by {
        if x < a.len() {
            assert((a + b)[x] == a[x]);
        } else {
            assert((a + b)[x] == b[x - a.len()]);
        }
    }
}

/// No snippet of `content` is shorter than its trimmed text or than 16
/// characters, whichever is less.
proof fn lemma_snippet_lengths(content: Seq<char>)
    ensures
        all_at_least(
            snippets(content),
            if trimmed(content).len() < 16 { trimmed(content).len() } else { 16 },
        ),
{
    let t = trimmed(content);
    let n = t.len() as int;
    let m: nat = if t.len() < 16 { t.len() } else { 16 };
    let part0 = if n >= 4 { kept(t) } else { Seq::empty() };
    let part1 = if n >= 16 { kept(t.take(16)) } else { Seq::empty() };
    let part2 = if n >= 24 { kept(t.take(24)) } else { Seq::empty() };
    let part3 = if n >= 32 { kept(t.take(32)) } else { Seq::empty() };
    let part4 = if n > 48 { kept(t.subrange(n / 2 - 12, n / 2 + 12)) } else { Seq::empty() };
    assert(all_at_least(part0, m));
    assert(all_at_least(part1, m));
    assert(all_at_least(part2, m));
    assert(all_at_least(part3, m));
    assert(all_at_least(part4, m));
    lemma_at_least_concat(part0, part1, m);
    lemma_at_least_concat(part0 + part1, part2, m);
    lemma_at_least_concat(part0 + part1 + part2, part3, m);
    lemma_at_least_concat(part0 + part1 + part2 + part3, part4, m);
}

proof fn lemma_first_hit_none_too_long(snips: Seq<Seq<char>>, text: Seq<char>, min: nat)
    requires
        forall|x: int| 0 <= x < snips.len() ==> (#[trigger] snips[x]).len() > text.len(),
    ensures
        first_hit(snips, text, min) is None,
    decreases snips.len(),
{
    if snips.len() > 0 {
        if contains(text, snips[0]) {
            let i = choose|i: int| 0 <= i && i + snips[0].len() <= text.len() && #[trigger] text.subrange(i, i + snips[0].len()) == snips[0];
        }
        assert forall|x: int| 0 <= x < snips.drop_first().len() implies (#[trigger] snips.drop_first()[x]).len() > text.len() by {
            assert(snips.drop_first()[x] == snips[x + 1]);
        }
        lemma_first_hit_none_too_long(snips.drop_first(), text, min);
    }
}

proof fn lemma_source_flows_ids(src: SourceView, sinks: Seq<SinkView>)
    ensures
        forall|k: int| 0 <= k < source_flows(src, sinks).len() ==> (#[trigger] source_flows(src, sinks)[k]).source_id == src.id(),
    decreases sinks.len(),
{
    if sinks.len() > 0 {
        lemma_source_flows_ids(src, sinks.drop_last());
        let prev = source_flows(src, sinks.drop_last());
        match hit(src, sinks.last()) {
            Some(snippet) => {
                let cur = prev.push(flow_of(src, sinks.last(), snippet));
                assert(source_flows(src, sinks) == cur);
                assert forall|k: int| 0 <= k < cur.len() implies (#[trigger] cur[k]).source_id == src.id() by {
                    if k < prev.len() {
                        assert(cur[k] == prev[k]);
                    }
                }
            },
            None => {},
        }
    }
}

proof fn lemma_raw_flows_without_id(sources: Seq<SourceView>, sinks: Seq<SinkView>, id: Seq<char>)
    requires
        forall|i: int| 0 <= i < sources.len() && (#[trigger] sources[i]).id() == id ==> source_flows(sources[i], sinks).len() == 0,
    ensures
        forall|k: int| 0 <= k < raw_flows(sources, sinks).len() ==> (#[trigger] raw_flows(sources, sinks)[k]).source_id != id,
    decreases sources.len(),
{
    if sources.len() > 0 {
        let init = sources.drop_last();
        assert forall|i: int| 0 <= i < init.len() && (#[trigger] init[i]).id() == id implies source_flows(init[i], sinks).len() == 0 by {
            assert(init[i] == sources[i]);
        }
        lemma_raw_flows_without_id(init, sinks, id);
        lemma_source_flows_ids(sources.last(), sinks);
        let a = raw_flows(init, sinks);
        let b = source_flows(sources.last(), sinks);
        assert(sources.last() == sources[sources.len() - 1]);
        assert forall|k: int| 0 <= k < (a + b).len() implies (#[trigger] (a + b)[k]).source_id != id by {
            if k < a.len() {
                assert((a + b)[k] == a[k]);
            } else {
                assert((a + b)[k] == b[k - a.len()]);
            }
        }
    }
}

/// Pieces shorter than a source's snippets carry no flow from it: where the
/// text of every sink is shorter than the source's trimmed content and than
/// 16 characters, and no other source has its id, no flow has its id. A
/// secret split over several short leaves is therefore not detected.
pub proof fn lemma_short_pieces_no_flow(
    sources: Seq<SourceView>,
    sinks: Seq<SinkView>,
    flows: Seq<FlowView>,
    s: int,
)
    requires
        0 <= s < sources.len(),
        forall|i: int| 0 <= i < sources.len() && i != s ==> (#[trigger] sources[i]).id() != sources[s].id(),
        forall|j: int|
            0 <= j < sinks.len() ==> (#[trigger] sinks[j]).text().len() < trimmed(sources[s].content()).len()
                && sinks[j].text().len() < 16,
        deduplicated(raw_flows(sources, sinks), flows),
    ensures
        forall|f: int| 0 <= f < flows.len() ==> (#[trigger] flows[f]).source_id != sources[s].id(),
{
    let src = sources[s];
    lemma_snippet_lengths(src.content());
    assert forall|j: int| 0 <= j < sinks.len() implies hit(src, #[trigger] sinks[j]) is None by {
        let snips = snippets(src.content());
        assert forall|x: int| 0 <= x < snips.len() implies (#[trigger] snips[x]).len() > sinks[j].text().len() by {
            assert(snips[x].len() >= (if trimmed(src.content()).len() < 16 { trimmed(src.content()).len() } else { 16 }));
        }
        lemma_first_hit_none_too_long(snips, sinks[j].text(), min_match_len(sinks[j]));
    }
    lemma_source_flows_empty(src, sinks);
    assert forall|i: int| 0 <= i < sources.len() && (#[trigger] sources[i]).id() == src.id() implies source_flows(sources[i], sinks).len() == 0 by {
        assert(i == s);
    }
    lemma_raw_flows_without_id(sources, sinks, src.id());
    assert forall|f: int| 0 <= f < flows.len() implies (#[trigger] flows[f]).source_id != src.id() by {
        let k = lemma_first_at(raw_flows(sources, sinks), flows, f);
    }
}

/// Some source of `sources` reaches some sink of `sinks` under the key of `f`.
pub open spec fn key_arises(sources: Seq<SourceView>, sinks: Seq<SinkView>, f: FlowView) -> bool {
    exists|i: int, j: int|
        0 <= i < sources.len() && 0 <= j < sinks.len() && hit(#[trigger] sources[i], #[trigger] sinks[j]) is Some
            && sources[i].id() == f.source_id && sinks[j].sink_type() == f.sink_type
}

proof fn lemma_source_flows_sound(src: SourceView, sinks: Seq<SinkView>, k: int) -> (j: int)
    requires
        0 <= k < source_flows(src, sinks).len(),
    ensures
        0 <= j < sinks.len(),
        hit(src, sinks[j]) is Some,
        source_flows(src, sinks)[k].source_id == src.id(),
        source_flows(src, sinks)[k].sink_type == sinks[j].sink_type(),
    decreases sinks.len(),
{
    let prev = source_flows(src, sinks.drop_last());
    if k < prev.len() {
        let j = lemma_source_flows_sound(src, sinks.drop_last(), k);
        assert(sinks.drop_last()[j] == sinks[j]);
        match hit(src, sinks.last()) {
            Some(snippet) => {
                assert(source_flows(src, sinks) == prev.push(flow_of(src, sinks.last(), snippet)));
            },
            None => {},
        }
        j
    } else {
        sinks.len() - 1
    }
}

proof fn lemma_source_flows_complete(src: SourceView, sinks: Seq<SinkView>, j: int) -> (k: int)
    requires
        0 <= j < sinks.len(),
        hit(src, sinks[j]) is Some,
    ensures
        0 <= k < source_flows(src, sinks).len(),
        source_flows(src, sinks)[k].source_id == src.id(),
        source_flows(src, sinks)[k].sink_type == sinks[j].sink_type(),
    decreases sinks.len(),
{
    let prev = source_flows(src, sinks.drop_last());
    if j < sinks.len() - 1 {
        assert(sinks.drop_last()[j] == sinks[j]);
        let k = lemma_source_flows_complete(src, sinks.drop_last(), j);
        match hit(src, sinks.last()) {
            Some(snippet) => {
                assert(source_flows(src, sinks) == prev.push(flow_of(src, sinks.last(), snippet)));
            },
            None => {},
        }
        k
    } else {
        prev.len() as int
    }
}

proof fn lemma_raw_flows_sound(sources: Seq<SourceView>, sinks: Seq<SinkView>, k: int)
    requires
        0 <= k < raw_flows(sources, sinks).len(),
    ensures
        key_arises(sources, sinks, raw_flows(sources, sinks)[k]),
    decreases sources.len(),
{
    let init = sources.drop_last();
    let a = raw_flows(init, sinks);
    let b = source_flows(sources.last(), sinks);
    assert(raw_flows(sources, sinks) == a + b);
    if k < a.len() {
        lemma_raw_flows_sound(init, sinks, k);
        let (i, j) = choose|i: int, j: int|
            0 <= i < init.len() && 0 <= j < sinks.len() && hit(#[trigger] init[i], #[trigger] sinks[j]) is Some
                && init[i].id() == a[k].source_id && sinks[j].sink_type() == a[k].sink_type;
        assert(init[i] == sources[i]);
        assert((a + b)[k] == a[k]);
        assert(hit(sources[i], sinks[j]) is Some);
    } else {
        let j = lemma_source_flows_sound(sources.last(), sinks, k - a.len());
        assert((a + b)[k] == b[k - a.len()]);
        assert(sources.last() == sources[sources.len() - 1]);
        assert(hit(sources[sources.len() - 1], sinks[j]) is Some);
    }
}

proof fn lemma_raw_flows_complete(sources: Seq<SourceView>, sinks: Seq<SinkView>, i: int, j: int) -> (k: int)
    requires
        0 <= i < sources.len(),
        0 <= j < sinks.len(),
        hit(sources[i], sinks[j]) is Some,
    ensures
        0 <= k < raw_flows(sources, sinks).len(),
        raw_flows(sources, sinks)[k].source_id == sources[i].id(),
        raw_flows(sources, sinks)[k].sink_type == sinks[j].sink_type(),
    decreases sources.len(),
{
    let init = sources.drop_last();
    let a = raw_flows(init, sinks);
    let b = source_flows(sources.last(), sinks);
    assert(raw_flows(sources, sinks) == a + b);
    if i < sources.len() - 1 {
        assert(init[i] == sources[i]);
        let k = lemma_raw_flows_complete(init, sinks, i, j);
        assert((a + b)[k] == a[k]);
        k
    } else {
        let k = lemma_source_flows_complete(sources.last(), sinks, j);
        assert((a + b)[a.len() + k] == b[k]);
        a.len() + k
    }
}

proof fn lemma_has_key_at(out: Seq<FlowView>, x: FlowView) -> (i: int)
    requires
        has_key(out, x),
    ensures
        0 <= i < out.len(),
        same_key(out[i], x),
{
    reveal(has_key);
    choose|i: int| #![trigger out[i]] 0 <= i < out.len() && same_key(out[i], x)
}

/// Each flow of `a` has a partner of the same key in `b`.
pub open spec fn keys_within(a: Seq<FlowView>, b: Seq<FlowView>) -> bool {
    forall|i: int| 0 <= i < a.len() ==> has_key(b, #[trigger] a[i])
}

proof fn lemma_keys_match(a: Seq<FlowView>, b: Seq<FlowView>)
    requires
        sorted_by_key(a),
        sorted_by_key(b),
        keys_within(a, b),
        keys_within(b, a),
    ensures
        a.len() == b.len(),
        forall|i: int| 0 <= i < a.len() ==> same_key(#[trigger] a[i], b[i]),
    decreases a.len() + b.len(),
{
    if a.len() == 0 && b.len() > 0 {
        assert(has_key(a, b[0]));
        let i = lemma_has_key_at(a, b[0]);
    } else if b.len() == 0 && a.len() > 0 {
        assert(has_key(b, a[0]));
        let i = lemma_has_key_at(b, a[0]);
    } else if a.len() > 0 {
        let la = a.len() - 1;
        let lb = b.len() - 1;
        assert(has_key(b, a[la]));
        assert(has_key(a, b[lb]));
        let j = lemma_has_key_at(b, a[la]);
        let i = lemma_has_key_at(a, b[lb]);
        if j < lb {
            assert(key_lt(b[j], b[lb]));
            assert(key_lt(a[la], b[lb]));
            if i < la {
                assert(key_lt(a[i], a[la]));
                assert(key_lt(b[lb], a[la]));
                lemma_key_lt_asymmetric(a[la], b[lb]);
            } else {
                lemma_key_lt_irreflexive(a[la], b[lb]);
            }
        }
        assert(same_key(a[la], b[lb]));
        let a0 = a.drop_last();
        let b0 = b.drop_last();
        assert forall|x: int| 0 <= x < a0.len() implies has_key(b0, #[trigger] a0[x]) by {
            assert(a0[x] == a[x]);
            assert(has_key(b, a[x]));
            let m = lemma_has_key_at(b, a[x]);
            if m == lb {
                assert(key_lt(a[x], a[la]));
                lemma_key_lt_irreflexive(a[x], a[la]);
            }
            assert(b0[m] == b[m]);
            lemma_covered_intro(b0, m, a0[x]);
        }
        assert forall|x: int| 0 <= x < b0.len() implies has_key(a0, #[trigger] b0[x]) by {
            assert(b0[x] == b[x]);
            assert(has_key(a, b[x]));
            let m = lemma_has_key_at(a, b[x]);
            if m == la {
                assert(key_lt(b[x], b[lb]));
                lemma_key_lt_irreflexive(b[x], b[lb]);
            }
            assert(a0[m] == a[m]);
            lemma_covered_intro(a0, m, b0[x]);
        }
        lemma_keys_match(a0, b0);
        assert forall|x: int| 0 <= x < a.len() implies same_key(#[trigger] a[x], b[x]) by {
            if x < la {
                assert(a0[x] == a[x] && b0[x] == b[x]);
            }
        }
    }
}

proof fn lemma_keys_carry(
    s1: Seq<SourceView>,
    k1: Seq<SinkView>,
    s2: Seq<SourceView>,
    k2: Seq<SinkView>,
    a: Seq<FlowView>,
    b: Seq<FlowView>,
)
    requires
        forall|x: SourceView| #[trigger] s1.contains(x) ==> s2.contains(x),
        forall|y: SinkView| #[trigger] k1.contains(y) ==> k2.contains(y),
        deduplicated(raw_flows(s1, k1), a),
        deduplicated(raw_flows(s2, k2), b),
    ensures
        keys_within(a, b),
{
    assert forall|x: int| 0 <= x < a.len() implies has_key(b, #[trigger] a[x]) by {
        let k = lemma_first_at(raw_flows(s1, k1), a, x);
        lemma_raw_flows_sound(s1, k1, k);
        let (i, j) = choose|i: int, j: int|
            0 <= i < s1.len() && 0 <= j < k1.len() && hit(#[trigger] s1[i], #[trigger] k1[j]) is Some
                && s1[i].id() == a[x].source_id && k1[j].sink_type() == a[x].sink_type;
        assert(s1.contains(s1[i]));
        assert(k1.contains(k1[j]));
        let i2 = choose|i2: int| 0 <= i2 < s2.len() && s2[i2] == s1[i];
        let j2 = choose|j2: int| 0 <= j2 < k2.len() && k2[j2] == k1[j];
        let k2i = lemma_raw_flows_complete(s2, k2, i2, j2);
        let m = lemma_covered_at(raw_flows(s2, k2), b, k2i);
        lemma_covered_intro(b, m, a[x]);
    }
}

/// The order of sources and sinks does not matter to which flows are found:
/// lists that hold the same sources and the same sinks, in any order, give
/// flows with the same `(source_id, sink_type)` keys in the same order.
pub proof fn lemma_flow_keys_order_irrelevant(
    s1: Seq<SourceView>,
    k1: Seq<SinkView>,
    s2: Seq<SourceView>,
    k2: Seq<SinkView>,
    a: Seq<FlowView>,
    b: Seq<FlowView>,
)
    requires
        forall|x: SourceView| #[trigger] s1.contains(x) <==> #[trigger] s2.contains(x),
        forall|y: SinkView| #[trigger] k1.contains(y) <==> #[trigger] k2.contains(y),
        deduplicated(raw_flows(s1, k1), a),
        deduplicated(raw_flows(s2, k2), b),
    ensures
        a.len() == b.len(),
        forall|i: int| 0 <= i < a.len() ==> same_key(#[trigger] a[i], b[i]),
{
    lemma_keys_carry(s1, k1, s2, k2, a, b);
    lemma_keys_carry(s2, k2, s1, k1, b, a);
    lemma_keys_match(a, b);
}

} // verus!
