//! Character-level text operations used by the analysis: trimming, line
//! splitting, substring search and ordering of texts.

use vstd::prelude::*;
use vstd::utf8::{encode_scalar, encode_utf8};

verus! {

/// Unicode `White_Space`, the set that `char::is_whitespace` and `str::trim` use.
pub open spec fn is_ws(c: char) -> bool {
    let u = c as u32;
    (9 <= u && u <= 13) || u == 32 || u == 0x85 || u == 0xa0 || u == 0x1680 || (0x2000 <= u
        && u <= 0x200a) || u == 0x2028 || u == 0x2029 || u == 0x202f || u == 0x205f || u == 0x3000
}

/// The text with leading white space removed.
pub open spec fn trim_start(s: Seq<char>) -> Seq<char>
    decreases s.len(),
{
    if s.len() > 0 && is_ws(s[0]) {
        trim_start(s.drop_first())
    } else {
        s
    }
}

/// The text with trailing white space removed.
pub open spec fn trim_end(s: Seq<char>) -> Seq<char>
    decreases s.len(),
{
    if s.len() > 0 && is_ws(s.last()) {
        trim_end(s.drop_last())
    } else {
        s
    }
}

/// The text with leading and trailing white space removed.
pub open spec fn trimmed(s: Seq<char>) -> Seq<char> {
    trim_end(trim_start(s))
}

/// `needle` occurs in `hay` as a contiguous run of characters.
pub open spec fn contains(hay: Seq<char>, needle: Seq<char>) -> bool {
    exists|i: int| 0 <= i && i + needle.len() <= hay.len() && #[trigger] hay.subrange(i, i + needle.len()) == needle
}

/// `s` starts with `p`.
pub open spec fn starts_with(s: Seq<char>, p: Seq<char>) -> bool {
    p.len() <= s.len() && s.subrange(0, p.len() as int) == p
}

/// `s` ends with `p`.
pub open spec fn ends_with(s: Seq<char>, p: Seq<char>) -> bool {
    p.len() <= s.len() && s.subrange(s.len() - p.len(), s.len() as int) == p
}

pub fn is_whitespace(c: char) -> (r: bool)
    ensures
        r == is_ws(c),
{
    let u = c as u32;
    (9 <= u && u <= 13) || u == 32 || u == 0x85 || u == 0xa0 || u == 0x1680 || (0x2000 <= u
        && u <= 0x200a) || u == 0x2028 || u == 0x2029 || u == 0x202f || u == 0x205f || u == 0x3000
}

/// The characters of `s`, in order.
pub fn chars_of(s: &str) -> (r: Vec<char>)
    ensures
        r@ == s@,
{
    let mut r: Vec<char> = Vec::new();
    for c in it: s.chars()
        invariant
            it.seq() == s@,
            r@ == it.seq().subrange(0, it.index() as int),
    {
        r.push(c);
    }
    r
}

/// Relies on `String::push`: appends one character.
#[verifier::external_body]
pub(crate) fn push_char(s: &mut String, c: char)
    ensures
        final(s)@ == old(s)@.push(c),
{
    s.push(c);
}

/// The characters `cs[from..to]` as a new string.
pub fn string_of(cs: &Vec<char>, from: usize, to: usize) -> (r: String)
    requires
        from <= to <= cs.len(),
    ensures
        r@ == cs@.subrange(from as int, to as int),
{
    let mut r = String::new();
    let mut i: usize = from;
    while i < to
        invariant
            from <= i <= to <= cs.len(),
            r@ == cs@.subrange(from as int, i as int),
        decreases to - i,
    {
        push_char(&mut r, cs[i]);
        i = i + 1;
        assert(r@ =~= cs@.subrange(from as int, i as int));
    }
    r
}

proof fn lemma_trim_start_skip(s: Seq<char>, i: int)
    requires
        0 <= i < s.len(),
        is_ws(s[i]),
    ensures
        trim_start(s.subrange(i, s.len() as int)) == trim_start(s.subrange(i + 1, s.len() as int)),
{
    assert(s.subrange(i, s.len() as int).drop_first() =~= s.subrange(i + 1, s.len() as int));
}

proof fn lemma_trim_end_skip(s: Seq<char>, j: int)
    requires
        0 < j <= s.len(),
        is_ws(s[j - 1]),
    ensures
        trim_end(s.subrange(0, j)) == trim_end(s.subrange(0, j - 1)),
{
    assert(s.subrange(0, j).drop_last() =~= s.subrange(0, j - 1));
}

/// The bounds `(a, b)` of `cs` with leading and trailing white space cut off.
pub fn trim_bounds(cs: &Vec<char>) -> (r: (usize, usize))
    ensures
        r.0 <= r.1 <= cs.len(),
        cs@.subrange(r.0 as int, r.1 as int) == trimmed(cs@),
{
    let n = cs.len();
    let mut a: usize = 0;
    assert(cs@.subrange(0, n as int) =~= cs@);
    while a < n && is_whitespace(cs[a])
        invariant
            a <= n == cs.len(),
            trim_start(cs@) == trim_start(cs@.subrange(a as int, n as int)),
        decreases n - a,
    {
        proof {
            lemma_trim_start_skip(cs@, a as int);
        }
        a = a + 1;
    }
    let ghost t = cs@.subrange(a as int, n as int);
    assert(trim_start(t) == t);
    let mut b: usize = n;
    assert(t.subrange(0, (n - a) as int) =~= t);
    while b > a && is_whitespace(cs[b - 1])
        invariant
            a <= b <= n == cs.len(),
            t == cs@.subrange(a as int, n as int),
            trim_end(t) == trim_end(t.subrange(0, (b - a) as int)),
        decreases b - a,
    {
        proof {
            lemma_trim_end_skip(t, (b - a) as int);
        }
        b = b - 1;
    }
    assert(t.subrange(0, (b - a) as int) =~= cs@.subrange(a as int, b as int));
    (a, b)
}

/// `s` with leading and trailing white space removed, as `str::trim` gives it.
pub fn trim(s: &str) -> (r: String)
    ensures
        r@ == trimmed(s@),
{
    let cs = chars_of(s);
    let (a, b) = trim_bounds(&cs);
    string_of(&cs, a, b)
}

/// Whether `s` starts with `p`.
pub fn starts_with_chars(s: &Vec<char>, p: &Vec<char>) -> (r: bool)
    ensures
        r == starts_with(s@, p@),
{
    if p.len() > s.len() {
        return false;
    }
    occurs_at(s, p, 0)
}

/// Whether `needle` occurs in `hay` at position `i`.
fn occurs_at(hay: &Vec<char>, needle: &Vec<char>, i: usize) -> (r: bool)
    requires
        i + needle.len() <= hay.len(),
    ensures
        r == (hay@.subrange(i as int, i + needle.len()) == needle@),
{
    let mut k: usize = 0;
    while k < needle.len()
        invariant
            k <= needle.len(),
            i + needle.len() <= hay.len(),
            hay@.subrange(i as int, i + k) == needle@.subrange(0, k as int),
        decreases needle.len() - k,
    {
        if hay[i + k] != needle[k] {
            assert(hay@.subrange(i as int, i + needle.len())[k as int] != needle@[k as int]);
            return false;
        }
        k = k + 1;
        assert(hay@.subrange(i as int, i + k) =~= needle@.subrange(0, k as int));
    }
    assert(needle@.subrange(0, k as int) =~= needle@);
    true
}

/// Whether `needle` occurs in `hay`, as `str::contains` decides it.
pub fn contains_chars(hay: &Vec<char>, needle: &Vec<char>) -> (r: bool)
    ensures
        r == contains(hay@, needle@),
{
    if needle.len() == 0 {
        assert(hay@.subrange(0, 0 + needle@.len() as int) =~= needle@);
        return true;
    }
    if needle.len() > hay.len() {
        return false;
    }
    let last = hay.len() - needle.len();
    let mut i: usize = 0;
    while i <= last
        invariant
            last + needle.len() == hay.len(),
            needle.len() > 0,
            forall|j: int| 0 <= j < i ==> #[trigger] hay@.subrange(j, j + needle.len()) != needle@,
        decreases last + 1 - i,
    {
        if occurs_at(hay, needle, i) {
            assert(hay@.subrange(i as int, i + needle@.len()) == needle@);
            return true;
        }
        i = i + 1;
    }
    false
}

/// Lexicographic order of texts by code point, the order of `str`'s `Ord`.
pub open spec fn text_lt(a: Seq<char>, b: Seq<char>) -> bool
    decreases a.len(),
{
    if a.len() == 0 {
        b.len() > 0
    } else if b.len() == 0 {
        false
    } else if a[0] != b[0] {
        (a[0] as u32) < (b[0] as u32)
    } else {
        text_lt(a.drop_first(), b.drop_first())
    }
}

pub proof fn lemma_text_lt_irreflexive(a: Seq<char>)
    ensures
        !text_lt(a, a),
    decreases a.len(),
{
    if a.len() > 0 {
        lemma_text_lt_irreflexive(a.drop_first());
    }
}

pub proof fn lemma_text_lt_asymmetric(a: Seq<char>, b: Seq<char>)
    requires
        text_lt(a, b),
    ensures
        !text_lt(b, a),
    decreases a.len(),
{
    if a.len() > 0 && b.len() > 0 && a[0] == b[0] {
        lemma_text_lt_asymmetric(a.drop_first(), b.drop_first());
    }
}

pub proof fn lemma_text_lt_transitive(a: Seq<char>, b: Seq<char>, c: Seq<char>)
    requires
        text_lt(a, b),
        text_lt(b, c),
    ensures
        text_lt(a, c),
    decreases a.len(),
{
    if a.len() > 0 && b.len() > 0 && c.len() > 0 && a[0] == b[0] && b[0] == c[0] {
        lemma_text_lt_transitive(a.drop_first(), b.drop_first(), c.drop_first());
    }
}

proof fn lemma_char_code_injective(a: char, b: char)
    requires
        (a as u32) == (b as u32),
    ensures
        a == b,
{
}

pub proof fn lemma_text_lt_total(a: Seq<char>, b: Seq<char>)
    requires
        a != b,
    ensures
        text_lt(a, b) || text_lt(b, a),
    decreases a.len(),
{
    if a.len() > 0 && b.len() > 0 && a[0] == b[0] {
        if a.drop_first() == b.drop_first() {
            assert(a =~= seq![a[0]] + a.drop_first());
            assert(b =~= seq![b[0]] + b.drop_first());
        }
        lemma_text_lt_total(a.drop_first(), b.drop_first());
    } else if a.len() > 0 && b.len() > 0 {
        if (a[0] as u32) == (b[0] as u32) {
            lemma_char_code_injective(a[0], b[0]);
        }
    } else if a.len() == 0 && b.len() == 0 {
        assert(a =~= b);
    }
}

/// Compares two texts: -1, 0 or 1 as `a` is before, equal to or after `b`.
pub fn compare_text(a: &str, b: &str) -> (r: i8)
    ensures
        r == 0 <==> a@ == b@,
        r < 0 <==> text_lt(a@, b@),
        r > 0 <==> text_lt(b@, a@),
{
    let x = chars_of(a);
    let y = chars_of(b);
    let mut i: usize = 0;
    assert(x@.subrange(0, x.len() as int) =~= x@);
    assert(y@.subrange(0, y.len() as int) =~= y@);
    while i < x.len() && i < y.len() && x[i] == y[i]
        invariant
            i <= x.len(),
            i <= y.len(),
            x@ == a@,
            y@ == b@,
            x@.subrange(0, i as int) == y@.subrange(0, i as int),
            text_lt(x@, y@) == text_lt(x@.subrange(i as int, x.len() as int), y@.subrange(i as int, y.len() as int)),
            text_lt(y@, x@) == text_lt(y@.subrange(i as int, y.len() as int), x@.subrange(i as int, x.len() as int)),
        decreases x.len() - i,
    {
        assert(x@.subrange(i as int, x.len() as int).drop_first() =~= x@.subrange(i + 1, x.len() as int));
        assert(y@.subrange(i as int, y.len() as int).drop_first() =~= y@.subrange(i + 1, y.len() as int));
        i = i + 1;
        assert(x@.subrange(0, i as int) =~= y@.subrange(0, i as int));
    }
    let ghost xs = x@.subrange(i as int, x.len() as int);
    let ghost ys = y@.subrange(i as int, y.len() as int);
    if i == x.len() && i == y.len() {
        assert(x@ =~= x@.subrange(0, i as int));
        assert(y@ =~= y@.subrange(0, i as int));
        proof {
            lemma_text_lt_irreflexive(x@);
        }
        0
    } else {
        if i < x.len() && i < y.len() {
            assert(xs[0] == x@[i as int] && ys[0] == y@[i as int]);
            assert(x@[i as int] != y@[i as int]);
            if (x[i] as u32) == (y[i] as u32) {
                proof {
                    lemma_char_code_injective(x@[i as int], y@[i as int]);
                }
            }
            if (x[i] as u32) < (y[i] as u32) {
                -1
            } else {
                1
            }
        } else if i == x.len() {
            assert(x@.len() != y@.len());
            -1
        } else {
            assert(x@.len() != y@.len());
            1
        }
    }
}

/// The pieces of `s` between line feeds: one more than there are line feeds.
pub open spec fn split_lf(s: Seq<char>) -> Seq<Seq<char>>
    decreases s.len(),
{
    if s.len() == 0 {
        seq![Seq::empty()]
    } else {
        let p = split_lf(s.drop_last());
        if s.last() == '\n' {
            p.push(Seq::empty())
        } else {
            p.update(p.len() - 1, p.last().push(s.last()))
        }
    }
}

/// A line without the carriage return that ended it.
pub open spec fn strip_cr(l: Seq<char>) -> Seq<char> {
    if l.len() > 0 && l.last() == '\r' {
        l.drop_last()
    } else {
        l
    }
}

/// The lines of `s` as `str::lines` yields them: split at `\n` or `\r\n`,
/// without those endings; a final line ending adds no empty line.
pub open spec fn lines(s: Seq<char>) -> Seq<Seq<char>> {
    if s.len() == 0 {
        Seq::empty()
    } else if s.last() == '\n' {
        split_lf(s.drop_last()).map_values(|l: Seq<char>| strip_cr(l))
    } else {
        let p = split_lf(s);
        p.drop_last().map_values(|l: Seq<char>| strip_cr(l)).push(p.last())
    }
}

proof fn lemma_split_lf_nonempty(s: Seq<char>)
    ensures
        split_lf(s).len() >= 1,
    decreases s.len(),
{
    if s.len() > 0 {
        lemma_split_lf_nonempty(s.drop_last());
    }
}

/// The views of a sequence of strings.
pub open spec fn views(v: Seq<String>) -> Seq<Seq<char>> {
    v.map_values(|x: String| x@)
}

/// The lines of `s`, each as a string (see `lines`).
pub fn split_lines(s: &str) -> (r: Vec<String>)
    ensures
        views(r@) == lines(s@),
{
    let cs = chars_of(s);
    let n = cs.len();
    let mut out: Vec<String> = Vec::new();
    if n == 0 {
        assert(views(out@) =~= lines(s@));
        return out;
    }
    let end: usize = if cs[n - 1] == '\n' { n - 1 } else { n };
    let ghost t = cs@.subrange(0, end as int);
    let mut start: usize = 0;
    let mut i: usize = 0;
    assert(t.subrange(0, 0) =~= Seq::<char>::empty());
    while i < end
        invariant
            start <= i <= end <= n == cs.len(),
            t == cs@.subrange(0, end as int),
            split_lf(t.subrange(0, i as int)).len() == out.len() + 1,
            views(out@) == split_lf(t.subrange(0, i as int)).drop_last().map_values(|l: Seq<char>| strip_cr(l)),
            split_lf(t.subrange(0, i as int)).last() == cs@.subrange(start as int, i as int),
        decreases end - i,
    {
        let ghost before = split_lf(t.subrange(0, i as int));
        assert(t.subrange(0, i + 1).drop_last() =~= t.subrange(0, i as int));
        assert(t.subrange(0, i + 1).last() == cs@[i as int]);
        if cs[i] == '\n' {
            let stop: usize = if i > start && cs[i - 1] == '\r' { i - 1 } else { i };
            let piece = string_of(&cs, start, stop);
            assert(piece@ == strip_cr(cs@.subrange(start as int, i as int))) by {
                if i > start && cs@[i - 1] == '\r' {
                    assert(cs@.subrange(start as int, i as int).drop_last() =~= cs@.subrange(start as int, stop as int));
                }
            }
            let ghost old_views = views(out@);
            out.push(piece);
            assert(views(out@) =~= old_views.push(piece@));
            assert(before =~= before.drop_last().push(before.last()));
            i = i + 1;
            start = i;
            let ghost after = split_lf(t.subrange(0, i as int));
            assert(after == before.push(Seq::empty()));
            assert(after.drop_last() =~= before);
            assert(views(out@) =~= before.map_values(|l: Seq<char>| strip_cr(l)));
            assert(cs@.subrange(start as int, i as int) =~= Seq::<char>::empty());
        } else {
            i = i + 1;
            let ghost after = split_lf(t.subrange(0, i as int));
            assert(after == before.update(before.len() - 1, before.last().push(cs@[i - 1])));
            assert(after.drop_last() =~= before.drop_last());
            assert(cs@.subrange(start as int, i as int) =~= cs@.subrange(start as int, i - 1).push(cs@[i - 1]));
        }
    }
    assert(t.subrange(0, end as int) =~= t);
    if end < n {
        let stop: usize = if end > start && cs[end - 1] == '\r' { end - 1 } else { end };
        let piece = string_of(&cs, start, stop);
        assert(piece@ == strip_cr(cs@.subrange(start as int, end as int))) by {
            if end > start && cs@[end - 1] == '\r' {
                assert(cs@.subrange(start as int, end as int).drop_last() =~= cs@.subrange(start as int, stop as int));
            }
        }
        let ghost old_views = views(out@);
        out.push(piece);
        assert(views(out@) =~= old_views.push(piece@));
        assert(s@.drop_last() =~= t);
        let ghost p = split_lf(t);
        assert(p =~= p.drop_last().push(p.last()));
        assert(views(out@) =~= p.map_values(|l: Seq<char>| strip_cr(l)));
    } else {
        let piece = string_of(&cs, start, end);
        let ghost old_views = views(out@);
        out.push(piece);
        assert(views(out@) =~= old_views.push(piece@));
        assert(s@ =~= t);
        assert(views(out@) =~= lines(s@));
    }
    out
}

/// `r` is the longest prefix of `s` whose UTF-8 encoding takes at most `max`
/// bytes.
pub open spec fn longest_prefix_within(s: Seq<char>, max: nat, r: Seq<char>) -> bool {
    &&& r.len() <= s.len()
    &&& r == s.take(r.len() as int)
    &&& encode_utf8(r).len() <= max
    &&& r.len() < s.len() ==> encode_utf8(s.take(r.len() + 1int)).len() > max
}

proof fn lemma_encode_push(s: Seq<char>, c: char)
    ensures
        encode_utf8(s.push(c)) == encode_utf8(s) + encode_scalar(c as u32),
    decreases s.len(),
{
    if s.len() == 0 {
        assert(s.push(c).drop_first() =~= Seq::<char>::empty());
        assert(encode_utf8(Seq::<char>::empty()) =~= Seq::<u8>::empty());
        assert(encode_utf8(s) =~= Seq::<u8>::empty());
        assert(encode_scalar(c as u32) + Seq::<u8>::empty() =~= encode_scalar(c as u32));
    } else {
        lemma_encode_push(s.drop_first(), c);
        assert(s.push(c).drop_first() =~= s.drop_first().push(c));
        assert(s.push(c)[0] == s[0]);
        assert(encode_scalar(s[0] as u32) + (encode_utf8(s.drop_first()) + encode_scalar(c as u32))
            =~= (encode_scalar(s[0] as u32) + encode_utf8(s.drop_first())) + encode_scalar(c as u32));
    }
}

/// The number of bytes that UTF-8 takes for `c`.
fn utf8_width(c: char) -> (r: usize)
    ensures
        r == encode_scalar(c as u32).len(),
        1 <= r <= 4,
{
    proof {
        vstd::utf8::char_is_scalar(c);
    }
    let u = c as u32;
    if u <= 0x7f {
        1
    } else if u <= 0x7ff {
        2
    } else if u <= 0xffff {
        3
    } else {
        4
    }
}

/// The longest prefix of `s` that takes at most `max` bytes in UTF-8.
pub fn prefix_within_bytes(s: &str, max: usize) -> (r: String)
    ensures
        longest_prefix_within(s@, max as nat, r@),
{
    let cs = chars_of(s);
    let mut used: usize = 0;
    let mut i: usize = 0;
    assert(cs@.take(0) =~= Seq::<char>::empty());
    assert(encode_utf8(cs@.take(0)) =~= Seq::<u8>::empty());
    while i < cs.len()
        invariant
            i <= cs.len(),
            cs@ == s@,
            used <= max,
            used == encode_utf8(cs@.take(i as int)).len(),
        ensures
            i <= cs.len(),
            used <= max,
            used == encode_utf8(cs@.take(i as int)).len(),
            i < cs.len() ==> encode_utf8(cs@.take(i + 1)).len() > max,
        decreases cs.len() - i,
    {
        let w = utf8_width(cs[i]);
        proof {
            assert(cs@.take(i + 1) =~= cs@.take(i as int).push(cs@[i as int]));
            lemma_encode_push(cs@.take(i as int), cs@[i as int]);
        }
        if w > max - used {
            break;
        }
        used = used + w;
        i = i + 1;
    }
    let r = string_of(&cs, 0, i);
    assert(r@ =~= s@.take(i as int));
    r
}

} // verus!
