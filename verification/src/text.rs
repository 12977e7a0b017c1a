//! Text primitives over sequences of characters: whitespace trimming,
//! splitting on a separator, prefixes and line breaking, each with a
//! mathematical definition and an executable counterpart working on ranges
//! of a character vector.
use vstd::prelude::*;

verus! {

/// Unicode `White_Space`, the property that `char::is_whitespace` tests.
pub open spec fn is_ws(c: char) -> bool {
    ||| ('\u{9}' <= c && c <= '\u{d}')
    ||| c == ' '
    ||| c == '\u{85}'
    ||| c == '\u{a0}'
    ||| c == '\u{1680}'
    ||| ('\u{2000}' <= c && c <= '\u{200a}')
    ||| c == '\u{2028}'
    ||| c == '\u{2029}'
    ||| c == '\u{202f}'
    ||| c == '\u{205f}'
    ||| c == '\u{3000}'
}

/// `s` without its leading whitespace.
pub open spec fn trim_start(s: Seq<char>) -> Seq<char>
    decreases s.len(),
{
    if s.len() > 0 && is_ws(s[0]) {
        trim_start(s.drop_first())
    } else {
        s
    }
}

/// `s` without its trailing whitespace.
pub open spec fn trim_end(s: Seq<char>) -> Seq<char>
    decreases s.len(),
{
    if s.len() > 0 && is_ws(s.last()) {
        trim_end(s.drop_last())
    } else {
        s
    }
}

/// `s` without leading and trailing whitespace.
pub open spec fn trim(s: Seq<char>) -> Seq<char> {
    trim_end(trim_start(s))
}

/// The pieces of `s` between occurrences of `sep`, as `str::split` yields
/// them: there is always at least one piece, and empty pieces are kept.
pub open spec fn split(s: Seq<char>, sep: char) -> Seq<Seq<char>>
    decreases s.len(),
{
    if s.len() == 0 {
        seq![Seq::<char>::empty()]
    } else {
        let p = split(s.drop_last(), sep);
        if s.last() == sep {
            p.push(Seq::<char>::empty())
        } else {
            p.update(p.len() - 1, p.last().push(s.last()))
        }
    }
}

/// Whether `p` is a prefix of `s`.
pub open spec fn starts_with(s: Seq<char>, p: Seq<char>) -> bool {
    p.len() <= s.len() && s.take(p.len() as int) == p
}

/// Whether `sep` occurs in `s`.
pub open spec fn contains_char(s: Seq<char>, sep: char) -> bool {
    exists|i: int| 0 <= i < s.len() && s[i] == sep
}

/// A line's text without the carriage return that preceded its line feed.
pub open spec fn strip_cr(s: Seq<char>) -> Seq<char> {
    if s.len() > 0 && s.last() == '\r' {
        s.drop_last()
    } else {
        s
    }
}

/// The lines of `s` that a line feed ends, as `str::lines` yields them.
pub open spec fn ended_lines(s: Seq<char>) -> Seq<Seq<char>> {
    let p = split(s, '\n');
    Seq::new((p.len() - 1) as nat, |k: int| strip_cr(p[k]))
}

/// The lines of `s`, as `str::lines` yields them: split at each line feed,
/// a carriage return just before a line feed removed, and no empty line
/// after a final line feed.
pub open spec fn lines(s: Seq<char>) -> Seq<Seq<char>> {
    let p = split(s, '\n');
    if p.last().len() > 0 {
        ended_lines(s).push(p.last())
    } else {
        ended_lines(s)
    }
}

/// `split` always yields at least one piece.
pub proof fn lemma_split_nonempty(s: Seq<char>, sep: char)
    ensures
        split(s, sep).len() >= 1,
    decreases s.len(),
{
    if s.len() > 0 {
        lemma_split_nonempty(s.drop_last(), sep);
    }
}

/// Splitting at an occurrence of the separator splits the pieces.
pub proof fn lemma_split_concat(a: Seq<char>, b: Seq<char>, sep: char)
    ensures
        split(a + seq![sep] + b, sep) == split(a, sep) + split(b, sep),
    decreases b.len(),
{
    lemma_split_nonempty(a, sep);
    lemma_split_nonempty(b, sep);
    let ab = a + seq![sep] + b;
    if b.len() == 0 {
        assert(ab.drop_last() =~= a);
        assert(split(a, sep).push(Seq::<char>::empty()) =~= split(a, sep) + split(b, sep));
    } else {
        let b0 = b.drop_last();
        assert(ab.drop_last() =~= a + seq![sep] + b0);
        lemma_split_concat(a, b0, sep);
        lemma_split_nonempty(b0, sep);
        let pa = split(a, sep);
        let pb0 = split(b0, sep);
        assert(b.drop_last() =~= b0);
        if b.last() == sep {
            assert((pa + pb0).push(Seq::<char>::empty()) =~= pa + pb0.push(Seq::<char>::empty()));
        } else {
            let q = pa + pb0;
            assert(q.update(q.len() - 1, q.last().push(b.last())) =~= pa + pb0.update(
                pb0.len() - 1,
                pb0.last().push(b.last()),
            ));
        }
    }
}

/// Text without the separator is a single piece.
pub proof fn lemma_split_no_sep(s: Seq<char>, sep: char)
    requires
        !contains_char(s, sep),
    ensures
        split(s, sep) == seq![s],
    decreases s.len(),
{
    if s.len() > 0 {
        let t = s.drop_last();
        assert(!contains_char(t, sep)) by {
            if contains_char(t, sep) {
                let i = choose|i: int| 0 <= i < t.len() && t[i] == sep;
                assert(s[i] == sep);
            }
        }
        lemma_split_no_sep(t, sep);
        assert(s[s.len() - 1] != sep);
        assert(t.push(s.last()) =~= s);
    } else {
        assert(s =~= Seq::<char>::empty());
    }
}

/// No piece of a split holds the separator.
pub proof fn lemma_split_pieces_no_sep(s: Seq<char>, sep: char)
    ensures
        forall|k: int|
            0 <= k < split(s, sep).len() ==> !contains_char(#[trigger] split(s, sep)[k], sep),
    decreases s.len(),
{
    lemma_split_nonempty(s, sep);
    if s.len() > 0 {
        let t = s.drop_last();
        let p = split(t, sep);
        lemma_split_pieces_no_sep(t, sep);
        lemma_split_nonempty(t, sep);
        if s.last() != sep {
            let last = p.last();
            assert(!contains_char(last, sep));
            let q = last.push(s.last());
            assert(!contains_char(q, sep)) by {
                if contains_char(q, sep) {
                    let i = choose|i: int| 0 <= i < q.len() && q[i] == sep;
                    if i < last.len() {
                        assert(last[i] == sep);
                    }
                }
            }
            assert forall|k: int| 0 <= k < split(s, sep).len() implies !contains_char(
                #[trigger] split(s, sep)[k],
                sep,
            ) by {
                if k < p.len() - 1 {
                    assert(split(s, sep)[k] == p[k]);
                }
            }
        } else {
            assert forall|k: int| 0 <= k < split(s, sep).len() implies !contains_char(
                #[trigger] split(s, sep)[k],
                sep,
            ) by {
                if k < p.len() {
                    assert(split(s, sep)[k] == p[k]);
                }
            }
        }
    }
}

/// Trimming adds no character.
pub proof fn lemma_trim_keeps_absence(s: Seq<char>, c: char)
    requires
        !contains_char(s, c),
    ensures
        !contains_char(trim_start(s), c),
        !contains_char(trim_end(s), c),
        !contains_char(trim(s), c),
{
    lemma_trim_start_suffix(s);
    lemma_trim_end_prefix(s);
    lemma_trim_end_prefix(trim_start(s));
    let k = choose|k: int| 0 <= k <= s.len() && trim_start(s) == s.skip(k);
    let t = trim_start(s);
    assert(!contains_char(t, c)) by {
        if contains_char(t, c) {
            let i = choose|i: int| 0 <= i < t.len() && t[i] == c;
            assert(s[i + k] == c);
        }
    }
    let m = choose|m: int| 0 <= m <= s.len() && trim_end(s) == s.take(m);
    assert(!contains_char(trim_end(s), c)) by {
        if contains_char(trim_end(s), c) {
            let i = choose|i: int| 0 <= i < trim_end(s).len() && trim_end(s)[i] == c;
            assert(s[i] == c);
        }
    }
    let m2 = choose|m: int| 0 <= m <= t.len() && trim_end(t) == t.take(m);
    assert(!contains_char(trim(s), c)) by {
        if contains_char(trim(s), c) {
            let i = choose|i: int| 0 <= i < trim(s).len() && trim(s)[i] == c;
            assert(t[i] == c);
        }
    }
}

/// `trim_start` drops a prefix, and leaves no leading whitespace.
pub proof fn lemma_trim_start_suffix(s: Seq<char>)
    ensures
        exists|k: int| 0 <= k <= s.len() && trim_start(s) == s.skip(k),
        trim_start(s).len() > 0 ==> !is_ws(trim_start(s)[0]),
    decreases s.len(),
{
    if s.len() > 0 && is_ws(s[0]) {
        lemma_trim_start_suffix(s.drop_first());
        let k = choose|k: int|
            0 <= k <= s.drop_first().len() && trim_start(s.drop_first()) == s.drop_first().skip(k);
        assert(s.drop_first().skip(k) =~= s.skip(k + 1));
    } else {
        assert(s.skip(0) =~= s);
    }
}

/// `trim_end` keeps a prefix, and leaves no trailing whitespace.
pub proof fn lemma_trim_end_prefix(s: Seq<char>)
    ensures
        exists|k: int| 0 <= k <= s.len() && trim_end(s) == s.take(k),
        trim_end(s).len() > 0 ==> !is_ws(trim_end(s).last()),
    decreases s.len(),
{
    if s.len() > 0 && is_ws(s.last()) {
        lemma_trim_end_prefix(s.drop_last());
        let k = choose|k: int|
            0 <= k <= s.drop_last().len() && trim_end(s.drop_last()) == s.drop_last().take(k);
        assert(s.drop_last().take(k) =~= s.take(k));
    } else {
        assert(s.take(s.len() as int) =~= s);
    }
}

/// A trimmed text that is not empty begins and ends with a character that
/// is not whitespace.
pub proof fn lemma_trim_bounds(s: Seq<char>)
    ensures
        trim(s).len() > 0 ==> !is_ws(trim(s)[0]) && !is_ws(trim(s).last()),
{
    let t = trim_start(s);
    lemma_trim_start_suffix(s);
    lemma_trim_end_prefix(t);
    let m = choose|m: int| 0 <= m <= t.len() && trim_end(t) == t.take(m);
    if trim(s).len() > 0 {
        assert(trim(s)[0] == t[0]);
    }
}

/// Where the first text is empty or ends with a line feed, the lines of
/// two texts joined are the lines of the first, then those of the second.
pub proof fn lemma_lines_concat(a: Seq<char>, b: Seq<char>)
    requires
        a.len() == 0 || a.last() == '\n',
    ensures
        lines(a + b) == lines(a) + lines(b),
{
    if a.len() == 0 {
        assert(a + b =~= b);
        assert(split(a, '\n') =~= seq![Seq::<char>::empty()]);
        assert(lines(a) =~= Seq::<Seq<char>>::empty());
    } else {
        let a0 = a.drop_last();
        assert(a0 + seq!['\n'] + Seq::<char>::empty() =~= a);
        assert(a0 + seq!['\n'] + b =~= a + b);
        lemma_split_concat(a0, Seq::<char>::empty(), '\n');
        lemma_split_concat(a0, b, '\n');
        lemma_split_nonempty(a0, '\n');
        lemma_split_nonempty(b, '\n');
        let pa = split(a0, '\n');
        let pb = split(b, '\n');
        assert(split(Seq::<char>::empty(), '\n') =~= seq![Seq::<char>::empty()]);
        assert(split(a, '\n') =~= pa + seq![Seq::<char>::empty()]);
        assert(split(a + b, '\n') =~= pa + pb);
        assert(lines(a) =~= Seq::new(pa.len(), |k: int| strip_cr(pa[k])));
        let pab = pa + pb;
        assert(pab.last() == pb.last());
        assert(ended_lines(a + b) =~= Seq::new(pa.len(), |k: int| strip_cr(pa[k])) + ended_lines(
            b,
        ));
        if pb.last().len() > 0 {
            assert(lines(a + b) =~= lines(a) + lines(b));
        } else {
            assert(lines(a + b) =~= lines(a) + lines(b));
        }
    }
}

/// A line without a line feed, followed by one, is a single line.
pub proof fn lemma_lines_single(l: Seq<char>)
    requires
        !contains_char(l, '\n'),
    ensures
        lines(l + seq!['\n']) == seq![strip_cr(l)],
{
    lemma_split_concat(l, Seq::<char>::empty(), '\n');
    lemma_split_no_sep(l, '\n');
    assert(l + seq!['\n'] + Seq::<char>::empty() =~= l + seq!['\n']);
    assert(split(Seq::<char>::empty(), '\n') =~= seq![Seq::<char>::empty()]);
    assert(split(l + seq!['\n'], '\n') =~= seq![l, Seq::<char>::empty()]);
    assert(lines(l + seq!['\n']) =~= seq![strip_cr(l)]);
}

/// Law: a line without line feed or carriage return is one line whether it
/// ends the text, ends with a line feed, or ends with a carriage return
/// and a line feed; the line ending is not part of it.
pub proof fn lemma_line_endings(l: Seq<char>)
    requires
        !contains_char(l, '\n'),
        !contains_char(l, '\r'),
    ensures
        lines(l + seq!['\n']) == seq![l],
        lines(l + seq!['\r', '\n']) == seq![l],
        l.len() > 0 ==> lines(l) == seq![l],
{
    lemma_lines_single(l);
    if l.len() > 0 {
        assert(l.last() != '\r') by {
            assert(l[l.len() - 1] == l.last());
        }
    }
    let lr = l + seq!['\r'];
    assert(!contains_char(lr, '\n')) by {
        if contains_char(lr, '\n') {
            let i = choose|i: int| 0 <= i < lr.len() && lr[i] == '\n';
            if i < l.len() {
                assert(l[i] == '\n');
            }
        }
    }
    lemma_lines_single(lr);
    assert(lr + seq!['\n'] =~= l + seq!['\r', '\n']);
    assert(lr.drop_last() =~= l);
    lemma_split_no_sep(l, '\n');
    if l.len() > 0 {
        assert(lines(l) =~= seq![l]);
    }
}

/// Whether `c` is whitespace in the sense of `is_ws`.
pub fn is_whitespace(c: char) -> (res: bool)
    ensures
        res == is_ws(c),
{
    ('\u{9}' <= c && c <= '\u{d}') || c == ' ' || c == '\u{85}' || c == '\u{a0}' || c
        == '\u{1680}' || ('\u{2000}' <= c && c <= '\u{200a}') || c == '\u{2028}' || c
        == '\u{2029}' || c == '\u{202f}' || c == '\u{205f}' || c == '\u{3000}'
}

/// The characters of `s`, in order.
pub fn chars_of(s: &str) -> (v: Vec<char>)
    ensures
        v@ == s@,
{
    let mut v: Vec<char> = Vec::new();
    for c in it: s.chars()
        invariant
            v@ == it.seq().take(it.index()),
    {
        v.push(c);
    }
    v
}

/// Appends `c` to `s`.
///
/// Calls `String::push`, which appends one character; the contract states
/// that and nothing more.
#[verifier::external_body]
pub(crate) fn string_push(s: &mut String, c: char)
    ensures
        final(s)@ == old(s)@.push(c),
{
    s.push(c);
}

/// A new string holding the characters `v[a..b]`.
pub fn string_from_range(v: &Vec<char>, a: usize, b: usize) -> (res: String)
    requires
        a <= b <= v.len(),
    ensures
        res@ == v@.subrange(a as int, b as int),
{
    let mut res = String::new();
    let mut i = a;
    while i < b
        invariant
            a <= i <= b <= v.len(),
            res@ == v@.subrange(a as int, i as int),
        decreases b - i,
    {
        string_push(&mut res, v[i]);
        assert(v@.subrange(a as int, i + 1) =~= v@.subrange(a as int, i as int).push(v@[i as int]));
        i += 1;
    }
    res
}

/// The first position in `a..b` from which `v[..b]` holds no leading
/// whitespace.
pub fn skip_ws(v: &Vec<char>, a: usize, b: usize) -> (i: usize)
    requires
        a <= b <= v.len(),
    ensures
        a <= i <= b,
        v@.subrange(i as int, b as int) == trim_start(v@.subrange(a as int, b as int)),
{
    let mut i = a;
    while i < b && is_whitespace(v[i])
        invariant
            a <= i <= b <= v.len(),
            trim_start(v@.subrange(a as int, b as int)) == trim_start(
                v@.subrange(i as int, b as int),
            ),
        decreases b - i,
    {
        assert(v@.subrange(i as int, b as int).drop_first() =~= v@.subrange(i + 1, b as int));
        i += 1;
    }
    i
}

/// The last position in `a..b` up to which `v[a..]` holds no trailing
/// whitespace.
pub fn skip_ws_back(v: &Vec<char>, a: usize, b: usize) -> (j: usize)
    requires
        a <= b <= v.len(),
    ensures
        a <= j <= b,
        v@.subrange(a as int, j as int) == trim_end(v@.subrange(a as int, b as int)),
{
    let mut j = b;
    while j > a && is_whitespace(v[j - 1])
        invariant
            a <= j <= b <= v.len(),
            trim_end(v@.subrange(a as int, b as int)) == trim_end(
                v@.subrange(a as int, j as int),
            ),
        decreases j - a,
    {
        assert(v@.subrange(a as int, j as int).drop_last() =~= v@.subrange(a as int, j - 1));
        j -= 1;
    }
    j
}

/// The bounds of `trim(v[a..b])` within `v`.
pub fn trim_range(v: &Vec<char>, a: usize, b: usize) -> (r: (usize, usize))
    requires
        a <= b <= v.len(),
    ensures
        a <= r.0 <= r.1 <= b,
        v@.subrange(r.0 as int, r.1 as int) == trim(v@.subrange(a as int, b as int)),
{
    let i = skip_ws(v, a, b);
    let j = skip_ws_back(v, i, b);
    (i, j)
}

/// The bounds within `v` of the pieces of `v[a..b]` between occurrences of
/// `sep`.
pub fn split_ranges(v: &Vec<char>, a: usize, b: usize, sep: char) -> (r: Vec<(usize, usize)>)
    requires
        a <= b <= v.len(),
    ensures
        r@.len() == split(v@.subrange(a as int, b as int), sep).len(),
        forall|k: int|
            0 <= k < r@.len() ==> {
                &&& a <= (#[trigger] r@[k]).0 <= r@[k].1 <= b
                &&& v@.subrange(r@[k].0 as int, r@[k].1 as int) == split(
                    v@.subrange(a as int, b as int),
                    sep,
                )[k]
            },
{
    let mut r: Vec<(usize, usize)> = Vec::new();
    let mut cur = a;
    let mut i = a;
    assert(v@.subrange(a as int, a as int) =~= Seq::<char>::empty());
    while i < b
        invariant
            a <= cur <= i <= b <= v.len(),
            r@.len() + 1 == split(v@.subrange(a as int, i as int), sep).len(),
            forall|k: int|
                0 <= k < r@.len() ==> {
                    &&& a <= (#[trigger] r@[k]).0 <= r@[k].1 <= i
                    &&& v@.subrange(r@[k].0 as int, r@[k].1 as int) == split(
                        v@.subrange(a as int, i as int),
                        sep,
                    )[k]
                },
            v@.subrange(cur as int, i as int) == split(v@.subrange(a as int, i as int), sep).last(),
        decreases b - i,
    {
        let ghost before = v@.subrange(a as int, i as int);
        let ghost after = v@.subrange(a as int, i + 1);
        assert(after.drop_last() =~= before);
        assert(after.last() == v@[i as int]);
        proof {
            lemma_split_nonempty(before, sep);
        }
        if v[i] == sep {
            r.push((cur, i));
            cur = i + 1;
            assert(v@.subrange(cur as int, i + 1) =~= Seq::<char>::empty());
        } else {
            assert(v@.subrange(cur as int, i + 1) =~= v@.subrange(cur as int, i as int).push(
                v@[i as int],
            ));
        }
        i += 1;
    }
    r.push((cur, b));
    r
}

/// Whether `v[a..b]` equals `w`.
pub fn range_eq(v: &Vec<char>, a: usize, b: usize, w: &Vec<char>) -> (res: bool)
    requires
        a <= b <= v.len(),
    ensures
        res == (v@.subrange(a as int, b as int) == w@),
{
    if b - a != w.len() {
        return false;
    }
    let mut k: usize = 0;
    while k < w.len()
        invariant
            a <= b <= v.len(),
            b - a == w.len(),
            k <= w.len(),
            forall|t: int| 0 <= t < k ==> v@[a + t] == w@[t],
        decreases w.len() - k,
    {
        if v[a + k] != w[k] {
            assert(v@.subrange(a as int, b as int)[k as int] != w@[k as int]);
            return false;
        }
        k += 1;
    }
    assert(v@.subrange(a as int, b as int) =~= w@);
    true
}

/// Whether `v[a..b]` begins with `p`.
pub fn range_starts_with(v: &Vec<char>, a: usize, b: usize, p: &Vec<char>) -> (res: bool)
    requires
        a <= b <= v.len(),
    ensures
        res == starts_with(v@.subrange(a as int, b as int), p@),
{
    if b - a < p.len() {
        return false;
    }
    let e = a + p.len();
    let res = range_eq(v, a, e, p);
    assert(v@.subrange(a as int, b as int).take(p@.len() as int) =~= v@.subrange(
        a as int,
        e as int,
    ));
    res
}

} // verus!
