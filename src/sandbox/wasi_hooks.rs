//! Taint sources: the environment and files given to the module, and the
//! fetches it declares on its output.

use vstd::prelude::*;
use vstd::string::StringExecFns;

use crate::sandbox::exec_result::{decode_lossy, utf8_lossy};
use crate::sandbox::wasi::bounded;
use crate::taint::source::{source_views, SourceView, TaintSource};
use crate::text::{chars_of, compare_text, lemma_text_lt_irreflexive, lemma_text_lt_total, lemma_text_lt_transitive, text_lt, starts_with_chars, lines, split_lines, starts_with, string_of, trim, trimmed, views};

verus! {

/// One source per environment entry, in the given order.
pub open spec fn env_source_views(env: Seq<(String, String)>) -> Seq<SourceView> {
    env.map_values(|e: (String, String)| SourceView::EnvVar { key: e.0@, value: e.1@ })
}

/// No two entries share a key, as in a map.
pub open spec fn keys_unique(env: Seq<(String, String)>) -> bool {
    forall|i: int, j: int| 0 <= i < env.len() && 0 <= j < env.len() && i != j ==> env[i].0@ != env[j].0@
}

/// No two sources share an id.
pub open spec fn ids_unique(s: Seq<SourceView>) -> bool {
    forall|i: int, j: int| 0 <= i < s.len() && 0 <= j < s.len() && i != j ==> (#[trigger] s[i]).id() != (#[trigger] s[j]).id()
}

/// Each source comes before the next by id.
pub open spec fn sorted_by_id(s: Seq<SourceView>) -> bool {
    forall|i: int, j: int| 0 <= i < j < s.len() ==> text_lt((#[trigger] s[i]).id(), (#[trigger] s[j]).id())
}

/// `a` and `b` hold the same sources.
pub open spec fn same_elements(a: Seq<SourceView>, b: Seq<SourceView>) -> bool {
    forall|x: SourceView| #[trigger] a.contains(x) <==> #[trigger] b.contains(x)
}

/// `s` holds the sources of the environment entries, one each, ordered by id
/// (that is, by key): whatever order the entries came in.
pub open spec fn env_sources_of(env: Seq<(String, String)>, s: Seq<SourceView>) -> bool {
    &&& s.len() == env.len()
    &&& sorted_by_id(s)
    &&& same_elements(s, env_source_views(env))
}

proof fn lemma_prefix_injective(p: Seq<char>, a: Seq<char>, b: Seq<char>)
    requires
        p + a == p + b,
    ensures
        a == b,
{
    assert(a =~= (p + a).skip(p.len() as int));
    assert(b =~= (p + b).skip(p.len() as int));
}

/// The entries as sources, in the given order.
fn env_entries(env: &Vec<(String, String)>) -> (r: Vec<TaintSource>)
    ensures
        source_views(r@) == env_source_views(env@),
{
    let mut out: Vec<TaintSource> = Vec::new();
    let mut i: usize = 0;
    while i < env.len()
        invariant
            i <= env.len(),
            source_views(out@) == env_source_views(env@.subrange(0, i as int)),
        decreases env.len() - i,
    {
        let ghost before = source_views(out@);
        let key = env[i].0.clone();
        let value = env[i].1.clone();
        out.push(TaintSource::EnvVar { key, value });
        assert(source_views(out@) =~= before.push(SourceView::EnvVar { key: env@[i as int].0@, value: env@[i as int].1@ }));
        assert(env@.subrange(0, i + 1) =~= env@.subrange(0, i as int).push(env@[i as int]));
        i = i + 1;
        assert(source_views(out@) =~= env_source_views(env@.subrange(0, i as int)));
    }
    assert(env@.subrange(0, env.len() as int) =~= env@);
    out
}

proof fn lemma_sorted_id_insert(ov: Seq<SourceView>, x: SourceView, p: int)
    requires
        sorted_by_id(ov),
        0 <= p <= ov.len(),
        forall|q: int| 0 <= q < p ==> text_lt((#[trigger] ov[q]).id(), x.id()),
        p < ov.len() ==> text_lt(x.id(), ov[p].id()),
    ensures
        sorted_by_id(ov.insert(p, x)),
{
    let nv = ov.insert(p, x);
    assert forall|i: int, j: int| 0 <= i < j < nv.len() implies text_lt((#[trigger] nv[i]).id(), (#[trigger] nv[j]).id()) by {
        if j < p {
            assert(nv[i] == ov[i] && nv[j] == ov[j]);
        } else if j == p {
            assert(nv[i] == ov[i]);
        } else if i < p {
            assert(nv[i] == ov[i] && nv[j] == ov[j - 1]);
            if j - 1 > p {
                lemma_text_lt_transitive(x.id(), ov[p].id(), ov[j - 1].id());
            }
            lemma_text_lt_transitive(ov[i].id(), x.id(), ov[j - 1].id());
        } else if i == p {
            assert(nv[j] == ov[j - 1]);
            if j - 1 > p {
                lemma_text_lt_transitive(x.id(), ov[p].id(), ov[j - 1].id());
            }
        } else {
            assert(nv[i] == ov[i - 1] && nv[j] == ov[j - 1]);
        }
    }
}

proof fn lemma_insert_elements(ov: Seq<SourceView>, pre: Seq<SourceView>, x: SourceView, p: int)
    requires
        same_elements(ov, pre),
        0 <= p <= ov.len(),
    ensures
        same_elements(ov.insert(p, x), pre.push(x)),
{
    let nv = ov.insert(p, x);
    assert forall|y: SourceView| #[trigger] nv.contains(y) <==> #[trigger] pre.push(x).contains(y) by {
        if nv.contains(y) {
            let i = choose|i: int| 0 <= i < nv.len() && nv[i] == y;
            if i < p {
                assert(ov[i] == y);
                assert(ov.contains(y));
                assert(pre.contains(y));
                let m = choose|m: int| 0 <= m < pre.len() && pre[m] == y;
                assert(pre.push(x)[m] == y);
            } else if i == p {
                assert(pre.push(x)[pre.len() as int] == y);
            } else {
                assert(ov[i - 1] == y);
                assert(ov.contains(y));
                assert(pre.contains(y));
                let m = choose|m: int| 0 <= m < pre.len() && pre[m] == y;
                assert(pre.push(x)[m] == y);
            }
        }
        if pre.push(x).contains(y) {
            let m = choose|m: int| 0 <= m < pre.push(x).len() && pre.push(x)[m] == y;
            if m < pre.len() {
                assert(pre[m] == y);
                assert(pre.contains(y));
                assert(ov.contains(y));
                let i = choose|i: int| 0 <= i < ov.len() && ov[i] == y;
                if i < p {
                    assert(nv[i] == y);
                } else {
                    assert(nv[i + 1] == y);
                }
            } else {
                assert(nv[p] == y);
            }
        }
    }
}

/// The sources of `v` ordered by id; ids are distinct, so the order is strict.
fn sort_by_id(v: &Vec<TaintSource>) -> (r: Vec<TaintSource>)
    requires
        ids_unique(source_views(v@)),
    ensures
        r.len() == v.len(),
        sorted_by_id(source_views(r@)),
        same_elements(source_views(r@), source_views(v@)),
{
    let ghost vv = source_views(v@);
    let mut out: Vec<TaintSource> = Vec::new();
    let mut k: usize = 0;
    assert(source_views(out@) =~= vv.take(0));
    while k < v.len()
        invariant
            k <= v.len(),
            vv == source_views(v@),
            ids_unique(vv),
            out.len() == k,
            sorted_by_id(source_views(out@)),
            same_elements(source_views(out@), vv.take(k as int)),
        decreases v.len() - k,
    {
        let ghost ov = source_views(out@);
        let ghost x = vv[k as int];
        let xid = v[k].short_id();
        let mut p: usize = 0;
        while p < out.len() && compare_text(out[p].short_id().as_str(), xid.as_str()) < 0
            invariant
                p <= out.len(),
                ov == source_views(out@),
                xid@ == x.id(),
                forall|q: int| 0 <= q < p ==> text_lt((#[trigger] ov[q]).id(), x.id()),
            decreases out.len() - p,
        {
            p = p + 1;
        }
        proof {
            if p < out.len() {
                assert(!text_lt(ov[p as int].id(), x.id()));
                assert(ov.contains(ov[p as int]));
                assert(vv.take(k as int).contains(ov[p as int]));
                let m = choose|m: int| 0 <= m < vv.take(k as int).len() && vv.take(k as int)[m] == ov[p as int];
                assert(vv[m] == ov[p as int]);
                assert(ov[p as int].id() != x.id());
                lemma_text_lt_total(ov[p as int].id(), x.id());
            }
            lemma_sorted_id_insert(ov, x, p as int);
            lemma_insert_elements(ov, vv.take(k as int), x, p as int);
            assert(vv.take(k + 1) =~= vv.take(k as int).push(x));
        }
        out.insert(p, v[k].duplicate());
        assert(source_views(out@) =~= ov.insert(p as int, x));
        k = k + 1;
    }
    assert(vv.take(v.len() as int) =~= vv);
    out
}

/// The environment entries given to the module as sources, verbatim, one per
/// entry and ordered by key, so that the order the entries come in does not
/// matter (see `env_sources_of`).
pub fn collect_env_sources(env: &Vec<(String, String)>) -> (r: Vec<TaintSource>)
    requires
        keys_unique(env@),
    ensures
        env_sources_of(env@, source_views(r@)),
{
    let entries = env_entries(env);
    proof {
        let ev = env_source_views(env@);
        assert forall|i: int, j: int| 0 <= i < ev.len() && 0 <= j < ev.len() && i != j implies (#[trigger] ev[i]).id()
            != (#[trigger] ev[j]).id() by {
            if ev[i].id() == ev[j].id() {
                lemma_prefix_injective("EnvVar: "@, env@[i].0@, env@[j].0@);
            }
        }
    }
    assert(source_views(entries@).len() == entries@.len());
    assert(env_source_views(env@).len() == env@.len());
    sort_by_id(&entries)
}

proof fn lemma_index_in(a: Seq<SourceView>, b: Seq<SourceView>, i: int) -> (j: int)
    requires
        same_elements(a, b),
        0 <= i < a.len(),
    ensures
        0 <= j < b.len(),
        b[j] == a[i],
{
    assert(a.contains(a[i]));
    assert(b.contains(a[i]));
    choose|j: int| 0 <= j < b.len() && b[j] == a[i]
}

/// Sources ordered strictly by id are fixed by which sources they hold: two
/// such sequences with the same elements are equal.
pub proof fn lemma_sorted_by_id_unique(a: Seq<SourceView>, b: Seq<SourceView>)
    requires
        sorted_by_id(a),
        sorted_by_id(b),
        same_elements(a, b),
    ensures
        a == b,
    decreases a.len() + b.len(),
{
    if a.len() == 0 && b.len() == 0 {
        assert(a =~= b);
    } else if a.len() == 0 {
        let j = lemma_index_in(b, a, 0);
    } else if b.len() == 0 {
        let j = lemma_index_in(a, b, 0);
    } else {
        let la = a.len() - 1;
        let lb = b.len() - 1;
        let j = lemma_index_in(a, b, la);
        let i = lemma_index_in(b, a, lb);
        if j < lb {
            assert(text_lt(a[la].id(), b[lb].id()));
            if i < la {
                assert(text_lt(b[lb].id(), a[la].id()));
                        lemma_text_lt_transitive(a[la].id(), b[lb].id(), a[la].id());
            }
            lemma_text_lt_irreflexive(a[la].id());
        }
        assert(a[la] == b[lb]);
        let a0 = a.drop_last();
        let b0 = b.drop_last();
        assert forall|x: SourceView| #[trigger] a0.contains(x) <==> #[trigger] b0.contains(x) by {
            if a0.contains(x) {
                let m = choose|m: int| 0 <= m < a0.len() && a0[m] == x;
                assert(a[m] == x);
                assert(a.contains(x));
                assert(b.contains(x));
                let n = choose|n: int| 0 <= n < b.len() && b[n] == x;
                if n == lb {
                    assert(text_lt(a[m].id(), a[la].id()));
                    lemma_text_lt_irreflexive(x.id());
                }
                assert(b0[n] == x);
            }
            if b0.contains(x) {
                let n = choose|n: int| 0 <= n < b0.len() && b0[n] == x;
                assert(b[n] == x);
                assert(b.contains(x));
                assert(a.contains(x));
                let m = choose|m: int| 0 <= m < a.len() && a[m] == x;
                if m == la {
                    assert(text_lt(b[n].id(), b[lb].id()));
                    lemma_text_lt_irreflexive(x.id());
                }
                assert(a0[m] == x);
            }
        }
        lemma_sorted_by_id_unique(a0, b0);
        assert(a =~= a0.push(a[la]));
        assert(b =~= b0.push(b[lb]));
        assert(a0.push(a[la]) == b0.push(b[lb]));
    }
}

/// The order of the environment does not matter: environments with distinct
/// keys that hold the same entries give the same sources.
pub proof fn lemma_env_order_irrelevant(
    env1: Seq<(String, String)>,
    env2: Seq<(String, String)>,
    s1: Seq<SourceView>,
    s2: Seq<SourceView>,
)
    requires
        same_elements(env_source_views(env1), env_source_views(env2)),
        env_sources_of(env1, s1),
        env_sources_of(env2, s2),
    ensures
        s1 == s2,
{
    assert forall|x: SourceView| #[trigger] s1.contains(x) <==> #[trigger] s2.contains(x) by {
        assert(s1.contains(x) <==> env_source_views(env1).contains(x));
        assert(env_source_views(env1).contains(x) <==> env_source_views(env2).contains(x));
        assert(s2.contains(x) <==> env_source_views(env2).contains(x));
    }
    lemma_sorted_by_id_unique(s1, s2);
}

/// The sources of the files read as `bytes`: for each, its first `max` bytes
/// decoded with replacement of invalid sequences, unless those bytes are none.
pub open spec fn file_source_views(files: Seq<(String, Vec<u8>)>, max: nat) -> Seq<SourceView>
    decreases files.len(),
{
    if files.len() == 0 {
        Seq::empty()
    } else {
        let f = files.last();
        file_source_views(files.drop_last(), max) + if bounded(f.1@, max).len() == 0 {
            Seq::<SourceView>::empty()
        } else {
            seq![SourceView::FileRead { path: f.0@, content: utf8_lossy(bounded(f.1@, max)) }]
        }
    }
}

/// Only the bytes under the cap matter: file lists with the same paths whose
/// files agree on their first `max` bytes give the same sources.
pub proof fn lemma_file_sources_capped(
    files1: Seq<(String, Vec<u8>)>,
    files2: Seq<(String, Vec<u8>)>,
    max: nat,
)
    requires
        files1.len() == files2.len(),
        forall|i: int|
            0 <= i < files1.len() ==> (#[trigger] files1[i]).0@ == files2[i].0@ && bounded(files1[i].1@, max)
                == bounded(files2[i].1@, max),
    ensures
        file_source_views(files1, max) == file_source_views(files2, max),
    decreases files1.len(),
{
    if files1.len() > 0 {
        let n = files1.len() - 1;
        assert(files1.last() == files1[n] && files2.last() == files2[n]);
        assert forall|i: int| 0 <= i < files1.drop_last().len() implies (#[trigger] files1.drop_last()[i]).0@
            == files2.drop_last()[i].0@ && bounded(files1.drop_last()[i].1@, max) == bounded(
            files2.drop_last()[i].1@,
            max,
        ) by {
            assert(files1.drop_last()[i] == files1[i]);
            assert(files2.drop_last()[i] == files2[i]);
        }
        lemma_file_sources_capped(files1.drop_last(), files2.drop_last(), max);
    }
}

/// The first `n` bytes of `b`.
fn prefix(b: &Vec<u8>, n: usize) -> (r: Vec<u8>)
    requires
        n <= b.len(),
    ensures
        r@ == b@.take(n as int),
{
    let mut r: Vec<u8> = Vec::new();
    let mut i: usize = 0;
    while i < n
        invariant
            i <= n <= b.len(),
            r@ == b@.take(i as int),
        decreases n - i,
    {
        r.push(b[i]);
        i = i + 1;
        assert(r@ =~= b@.take(i as int));
    }
    r
}

/// The files found under the exposed directory, as `(path, bytes read)`, made
/// sources: each is cut to `max_bytes_per_file`, and skipped where that
/// leaves nothing.
pub fn collect_file_sources(files: &Vec<(String, Vec<u8>)>, max_bytes_per_file: usize) -> (r: Vec<
    TaintSource,
>)
    ensures
        source_views(r@) == file_source_views(files@, max_bytes_per_file as nat),
{
    let mut out: Vec<TaintSource> = Vec::new();
    let mut i: usize = 0;
    while i < files.len()
        invariant
            i <= files.len(),
            source_views(out@) == file_source_views(files@.subrange(0, i as int), max_bytes_per_file as nat),
        decreases files.len() - i,
    {
        let ghost before = source_views(out@);
        assert(files@.subrange(0, i + 1).drop_last() =~= files@.subrange(0, i as int));
        let bytes = &files[i].1;
        let end = if bytes.len() > max_bytes_per_file { max_bytes_per_file } else { bytes.len() };
        let cut = prefix(bytes, end);
        assert(cut@ =~= bounded(bytes@, max_bytes_per_file as nat));
        if cut.len() > 0 {
            let content = decode_lossy(cut.as_slice());
            out.push(TaintSource::FileRead { path: files[i].0.clone(), content });
        }
        i = i + 1;
        assert(source_views(out@) =~= file_source_views(files@.subrange(0, i as int), max_bytes_per_file as nat));
    }
    assert(files@.subrange(0, files.len() as int) =~= files@);
    out
}

/// The fetch that a trimmed line declares under `marker`: the rest of the
/// line, trimmed, unless it is empty.
pub open spec fn intent_under(t: Seq<char>, marker: Seq<char>) -> Seq<SourceView> {
    let url = trimmed(t.skip(marker.len() as int));
    if starts_with(t, marker) && url.len() > 0 {
        seq![SourceView::HttpFetchIntent { url, content: "<intent-only>"@ }]
    } else {
        Seq::empty()
    }
}

/// The fetches one line declares, marker by marker.
pub open spec fn line_intents(line: Seq<char>) -> Seq<SourceView> {
    let t = trimmed(line);
    intent_under(t, "HTTP_FETCH:"@) + intent_under(t, "FETCH:"@) + intent_under(t, "HTTP:"@)
}

/// The fetches a sequence of lines declares, line by line.
pub open spec fn intent_views(ls: Seq<Seq<char>>) -> Seq<SourceView>
    decreases ls.len(),
{
    if ls.len() == 0 {
        Seq::empty()
    } else {
        intent_views(ls.drop_last()) + line_intents(ls.last())
    }
}

/// Appends the fetch that the trimmed line `t` declares under `marker`.
fn push_intent(t: &Vec<char>, marker: &str, out: &mut Vec<TaintSource>)
    ensures
        source_views(final(out)@) == source_views(old(out)@) + intent_under(t@, marker@),
{
    let mc = chars_of(marker);
    let ghost before = source_views(out@);
    if starts_with_chars(t, &mc) {
        let rest = string_of(t, mc.len(), t.len());
        assert(rest@ =~= t@.skip(marker@.len() as int));
        let url = trim(rest.as_str());
        if !url.as_str().is_empty() {
            out.push(TaintSource::HttpFetchIntent { url, content: String::from_str("<intent-only>") });
            assert(source_views(out@) =~= before + intent_under(t@, marker@));
            return;
        }
    }
    assert(source_views(out@) =~= before + intent_under(t@, marker@));
}

/// The fetches declared by the lines of `s` (see `intent_views`).
fn scan_intents(s: &str, out: &mut Vec<TaintSource>)
    ensures
        source_views(final(out)@) == source_views(old(out)@) + intent_views(lines(s@)),
{
    let ls = split_lines(s);
    let ghost lv = views(ls@);
    let ghost start = source_views(out@);
    let mut i: usize = 0;
    assert(start =~= start + intent_views(lv.subrange(0, 0)));
    while i < ls.len()
        invariant
            i <= ls.len(),
            lv == views(ls@),
            lv == lines(s@),
            source_views(out@) == start + intent_views(lv.subrange(0, i as int)),
        decreases ls.len() - i,
    {
        let t = trim(ls[i].as_str());
        let tc = chars_of(t.as_str());
        push_intent(&tc, "HTTP_FETCH:", out);
        push_intent(&tc, "FETCH:", out);
        push_intent(&tc, "HTTP:", out);
        assert(lv.subrange(0, i + 1).drop_last() =~= lv.subrange(0, i as int));
        assert(lv.subrange(0, i + 1).last() == ls@[i as int]@);
        i = i + 1;
        assert(source_views(out@) =~= start + intent_views(lv.subrange(0, i as int)));
    }
    assert(lv.subrange(0, ls.len() as int) =~= lv);
}

/// The fetches declared on standard output, then on standard error.
pub fn collect_http_intents(stdout: &str, stderr: &str) -> (r: Vec<TaintSource>)
    ensures
        source_views(r@) == intent_views(lines(stdout@)) + intent_views(lines(stderr@)),
{
    let mut out: Vec<TaintSource> = Vec::new();
    assert(source_views(out@) =~= Seq::<SourceView>::empty());
    scan_intents(stdout, &mut out);
    scan_intents(stderr, &mut out);
    assert(source_views(out@) =~= intent_views(lines(stdout@)) + intent_views(lines(stderr@)));
    out
}

} // verus!
