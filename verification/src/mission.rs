//! Mission log records: reading one pipe-delimited line, picking the longest
//! mission that matches a destination and a status, and the compact
//! `code|id|date|duration|crew` text of the pick.
use vstd::prelude::*;

use crate::number::{
    int_text, lemma_i64_text_roundtrip, lemma_int_text_chars, parse_i64, parse_i64_range,
    push_i64_text,
};
use crate::text::{
    chars_of, contains_char, ended_lines, lemma_split_concat, lemma_split_no_sep,
    lemma_split_nonempty, lemma_split_pieces_no_sep, lemma_trim_bounds, lemma_trim_keeps_absence,
    lines, is_ws, lemma_lines_concat, lemma_lines_single, range_eq, range_starts_with, skip_ws, split, split_ranges,
    starts_with, string_from_range, string_push, strip_cr, trim, trim_range, trim_start,
};

verus! {

/// One data row of the log, borrowing its text fields from the line.
#[derive(Debug, Clone, PartialEq, Eq)]
pub struct Mission<'a> {
    pub date: &'a str,
    pub id: &'a str,
    pub destination: &'a str,
    pub status: &'a str,
    pub crew: i64,
    pub duration: i64,
    pub security_code: &'a str,
}

/// The contents of a `Mission`, as character sequences and numbers.
pub struct MissionView {
    pub date: Seq<char>,
    pub id: Seq<char>,
    pub destination: Seq<char>,
    pub status: Seq<char>,
    pub crew: i64,
    pub duration: i64,
    pub security_code: Seq<char>,
}

impl<'a> View for Mission<'a> {
    type V = MissionView;

    open spec fn view(&self) -> MissionView {
        MissionView {
            date: self.date@,
            id: self.id@,
            destination: self.destination@,
            status: self.status@,
            crew: self.crew,
            duration: self.duration,
            security_code: self.security_code@,
        }
    }
}

/// The longest matching mission, as handed across the skill boundary.
#[derive(Debug, Clone, PartialEq, Eq)]
pub struct Best {
    pub code: String,
    pub id: String,
    pub date: String,
    pub duration: i64,
    pub crew: i64,
}

/// The contents of a `Best`, as character sequences and numbers.
pub struct BestView {
    pub code: Seq<char>,
    pub id: Seq<char>,
    pub date: Seq<char>,
    pub duration: i64,
    pub crew: i64,
}

impl View for Best {
    type V = BestView;

    open spec fn view(&self) -> BestView {
        BestView {
            code: self.code@,
            id: self.id@,
            date: self.date@,
            duration: self.duration,
            crew: self.crew,
        }
    }
}

/// Whether a line is a blank line, a comment, or one of the header lines
/// that the log interleaves with its data.
pub open spec fn is_noise_text(l: Seq<char>) -> bool {
    let t = trim_start(l);
    ||| t.len() == 0
    ||| t[0] == '#'
    ||| starts_with(t, "SYSTEM"@)
    ||| starts_with(t, "CONFIG"@)
    ||| starts_with(t, "CHECKSUM"@)
    ||| starts_with(t, "CHECKPOINT"@)
}

/// The trimmed pipe-separated fields of the trimmed line.
pub open spec fn line_fields(l: Seq<char>) -> Seq<Seq<char>> {
    split(trim(l), '|').map_values(|f: Seq<char>| trim(f))
}

/// The crew size that a crew field gives: its number, or 0 where it has
/// none.
pub open spec fn crew_value(f: Seq<char>) -> i64 {
    match parse_i64(f) {
        Some(v) => v,
        None => 0,
    }
}

/// The mission that a line holds, if any: a line that is not noise, with
/// exactly eight fields, a duration that reads as an `i64`, and nonempty
/// date, id, destination, status and security code. The sixth field, the
/// success rate, is not read.
pub open spec fn spec_parse_line(l: Seq<char>) -> Option<MissionView> {
    if is_noise_text(l) {
        None
    } else {
        let f = line_fields(l);
        if f.len() != 8 {
            None
        } else {
            match parse_i64(f[5]) {
                None => None,
                Some(duration) => {
                    if f[0].len() == 0 || f[1].len() == 0 || f[2].len() == 0 || f[3].len() == 0
                        || f[7].len() == 0 {
                        None
                    } else {
                        Some(
                            MissionView {
                                date: f[0],
                                id: f[1],
                                destination: f[2],
                                status: f[3],
                                crew: crew_value(f[4]),
                                duration,
                                security_code: f[7],
                            },
                        )
                    }
                },
            }
        }
    }
}

/// Whether a line holds a mission with the given destination and status.
pub open spec fn matches_filter(l: Seq<char>, dest: Seq<char>, status: Seq<char>) -> bool {
    match spec_parse_line(l) {
        Some(m) => m.destination == dest && m.status == status,
        None => false,
    }
}

/// The duration of the mission on a line that holds one.
pub open spec fn line_duration(l: Seq<char>) -> i64 {
    spec_parse_line(l).unwrap().duration
}

/// The index of the line that a scan from the first line keeps: a matching
/// line replaces the kept one when there is none yet or when its duration
/// is strictly greater.
pub open spec fn select(ls: Seq<Seq<char>>, dest: Seq<char>, status: Seq<char>) -> Option<int>
    decreases ls.len(),
{
    if ls.len() == 0 {
        None
    } else {
        let prev = select(ls.drop_last(), dest, status);
        let i = ls.len() - 1;
        if matches_filter(ls[i], dest, status) && (prev is None || line_duration(ls[i])
            > line_duration(ls[prev->0])) {
            Some(i)
        } else {
            prev
        }
    }
}

/// The summary of a mission.
pub open spec fn best_of(m: MissionView) -> BestView {
    BestView {
        code: m.security_code,
        id: m.id,
        date: m.date,
        duration: m.duration,
        crew: m.crew,
    }
}

/// The summary of the longest mission of the log with the given
/// destination and status, the first one among equals.
pub open spec fn spec_find_longest(log: Seq<char>, dest: Seq<char>, status: Seq<char>) -> Option<
    BestView,
> {
    let ls = lines(log);
    match select(ls, dest, status) {
        Some(i) => Some(best_of(spec_parse_line(ls[i]).unwrap())),
        None => None,
    }
}

/// The text that `Best::encode` writes: the five fields joined by `|`.
pub open spec fn encode_text(b: BestView) -> Seq<char> {
    b.code + seq!['|'] + b.id + seq!['|'] + b.date + seq!['|'] + int_text(b.duration as int)
        + seq!['|'] + int_text(b.crew as int)
}

/// What `Best::decode` reads from a text: exactly five `|`-separated
/// fields, of which the fourth and fifth read as `i64`.
pub open spec fn decode_text(s: Seq<char>) -> Option<BestView> {
    let p = split(s, '|');
    if p.len() != 5 {
        None
    } else {
        match (parse_i64(p[3]), parse_i64(p[4])) {
            (Some(duration), Some(crew)) => Some(
                BestView { code: p[0], id: p[1], date: p[2], duration, crew },
            ),
            _ => None,
        }
    }
}

/// The words that begin header lines, as character vectors.
struct NoiseWords {
    system: Vec<char>,
    config: Vec<char>,
    checksum: Vec<char>,
    checkpoint: Vec<char>,
}

impl NoiseWords {
    spec fn wf(&self) -> bool {
        &&& self.system@ == "SYSTEM"@
        &&& self.config@ == "CONFIG"@
        &&& self.checksum@ == "CHECKSUM"@
        &&& self.checkpoint@ == "CHECKPOINT"@
    }

    fn new() -> (w: NoiseWords)
        ensures
            w.wf(),
    {
        NoiseWords {
            system: chars_of("SYSTEM"),
            config: chars_of("CONFIG"),
            checksum: chars_of("CHECKSUM"),
            checkpoint: chars_of("CHECKPOINT"),
        }
    }
}

/// Whether the line `v[a..b]` is noise.
fn is_noise(v: &Vec<char>, a: usize, b: usize, words: &NoiseWords) -> (res: bool)
    requires
        a <= b <= v.len(),
        words.wf(),
    ensures
        res == is_noise_text(v@.subrange(a as int, b as int)),
{
    let t = skip_ws(v, a, b);
    let ghost ts = v@.subrange(t as int, b as int);
    if t == b {
        return true;
    }
    assert(ts[0] == v@[t as int]);
    if v[t] == '#' {
        return true;
    }
    range_starts_with(v, t, b, &words.system) || range_starts_with(v, t, b, &words.config)
        || range_starts_with(v, t, b, &words.checksum) || range_starts_with(
        v,
        t,
        b,
        &words.checkpoint,
    )
}

/// The positions within the log of the fields of a mission.
struct Spans {
    date: (usize, usize),
    id: (usize, usize),
    destination: (usize, usize),
    status: (usize, usize),
    crew: i64,
    duration: i64,
    code: (usize, usize),
}

spec fn span_in(s: (usize, usize), n: int) -> bool {
    s.0 <= s.1 <= n
}

spec fn span_text(v: Seq<char>, s: (usize, usize)) -> Seq<char> {
    v.subrange(s.0 as int, s.1 as int)
}

impl Spans {
    spec fn within(&self, n: int) -> bool {
        &&& span_in(self.date, n)
        &&& span_in(self.id, n)
        &&& span_in(self.destination, n)
        &&& span_in(self.status, n)
        &&& span_in(self.code, n)
    }

    spec fn mission_in(&self, v: Seq<char>) -> MissionView {
        MissionView {
            date: span_text(v, self.date),
            id: span_text(v, self.id),
            destination: span_text(v, self.destination),
            status: span_text(v, self.status),
            crew: self.crew,
            duration: self.duration,
            security_code: span_text(v, self.code),
        }
    }
}

/// Reads the mission on the line `v[a..b]`.
fn parse_span(v: &Vec<char>, a: usize, b: usize, words: &NoiseWords) -> (r: Option<Spans>)
    requires
        a <= b <= v.len(),
        words.wf(),
    ensures
        match r {
            None => spec_parse_line(v@.subrange(a as int, b as int)) is None,
            Some(x) => x.within(v.len() as int) && spec_parse_line(
                v@.subrange(a as int, b as int),
            ) == Some(x.mission_in(v@)),
        },
{
    let ghost l = v@.subrange(a as int, b as int);
    if is_noise(v, a, b, words) {
        return None;
    }
    let (ta, tb) = trim_range(v, a, b);
    let parts = split_ranges(v, ta, tb, '|');
    let ghost f = line_fields(l);
    assert(v@.subrange(ta as int, tb as int) == trim(l));
    if parts.len() != 8 {
        return None;
    }
    let (da, db) = trim_range(v, parts[0].0, parts[0].1);
    let (ia, ib) = trim_range(v, parts[1].0, parts[1].1);
    let (sa, sb) = trim_range(v, parts[2].0, parts[2].1);
    let (ua, ub) = trim_range(v, parts[3].0, parts[3].1);
    let (ca, cb) = trim_range(v, parts[4].0, parts[4].1);
    let (na, nb) = trim_range(v, parts[5].0, parts[5].1);
    let (ka, kb) = trim_range(v, parts[7].0, parts[7].1);
    assert(v@.subrange(da as int, db as int) == f[0]);
    assert(v@.subrange(ia as int, ib as int) == f[1]);
    assert(v@.subrange(sa as int, sb as int) == f[2]);
    assert(v@.subrange(ua as int, ub as int) == f[3]);
    assert(v@.subrange(ca as int, cb as int) == f[4]);
    assert(v@.subrange(na as int, nb as int) == f[5]);
    assert(v@.subrange(ka as int, kb as int) == f[7]);
    let duration = match parse_i64_range(v, na, nb) {
        Some(d) => d,
        None => {
            return None;
        },
    };
    let crew = match parse_i64_range(v, ca, cb) {
        Some(c) => c,
        None => 0,
    };
    if da == db || ia == ib || sa == sb || ua == ub || ka == kb {
        return None;
    }
    Some(
        Spans {
            date: (da, db),
            id: (ia, ib),
            destination: (sa, sb),
            status: (ua, ub),
            crew,
            duration,
            code: (ka, kb),
        },
    )
}

/// Reads one log line.
///
/// A line yields a mission when it is not blank, not a `#` comment and not a
/// `SYSTEM`, `CONFIG`, `CHECKSUM` or `CHECKPOINT` header, and when, trimmed,
/// it splits at `|` into exactly eight fields whose trimmed date, id,
/// destination, status and security code are nonempty and whose duration
/// reads as an `i64`. A crew field that does not read as an `i64` counts 0.
pub fn parse_line<'a>(line: &'a str) -> (res: Option<Mission<'a>>)
    ensures
        match res {
            Some(m) => spec_parse_line(line@) == Some(m@),
            None => spec_parse_line(line@) is None,
        },
{
    let v = chars_of(line);
    let words = NoiseWords::new();
    assert(v@.subrange(0, v@.len() as int) =~= line@);
    match parse_span(&v, 0, v.len(), &words) {
        None => None,
        Some(x) => Some(
            Mission {
                date: line.substring_char(x.date.0, x.date.1),
                id: line.substring_char(x.id.0, x.id.1),
                destination: line.substring_char(x.destination.0, x.destination.1),
                status: line.substring_char(x.status.0, x.status.1),
                crew: x.crew,
                duration: x.duration,
                security_code: line.substring_char(x.code.0, x.code.1),
            },
        ),
    }
}

impl Best {
    /// The five fields joined by `|`: `code|id|date|duration|crew`, the
    /// numbers in decimal.
    pub fn encode(&self) -> (res: String)
        ensures
            res@ == encode_text(self@),
    {
        let mut s = String::new();
        s.append(self.code.as_str());
        string_push(&mut s, '|');
        s.append(self.id.as_str());
        string_push(&mut s, '|');
        s.append(self.date.as_str());
        string_push(&mut s, '|');
        push_i64_text(&mut s, self.duration);
        string_push(&mut s, '|');
        push_i64_text(&mut s, self.crew);
        s
    }

    /// Reads the text that `encode` writes: exactly five `|`-separated
    /// fields, the last two of which read as `i64`; `None` otherwise.
    pub fn decode(s: &str) -> (res: Option<Best>)
        ensures
            match res {
                Some(b) => decode_text(s@) == Some(b@),
                None => decode_text(s@) is None,
            },
    {
        let v = chars_of(s);
        assert(v@.subrange(0, v@.len() as int) =~= s@);
        let parts = split_ranges(&v, 0, v.len(), '|');
        if parts.len() != 5 {
            return None;
        }
        let duration = match parse_i64_range(&v, parts[3].0, parts[3].1) {
            Some(d) => d,
            None => {
                return None;
            },
        };
        let crew = match parse_i64_range(&v, parts[4].0, parts[4].1) {
            Some(c) => c,
            None => {
                return None;
            },
        };
        Some(
            Best {
                code: string_from_range(&v, parts[0].0, parts[0].1),
                id: string_from_range(&v, parts[1].0, parts[1].1),
                date: string_from_range(&v, parts[2].0, parts[2].1),
                duration,
                crew,
            },
        )
    }
}

/// Law: decoding what `encode` writes gives back the same fields, provided
/// that the code, id and date hold no `|`.
pub proof fn lemma_encode_decode_roundtrip(b: BestView)
    requires
        !contains_char(b.code, '|'),
        !contains_char(b.id, '|'),
        !contains_char(b.date, '|'),
    ensures
        decode_text(encode_text(b)) == Some(b),
{
    let dt = int_text(b.duration as int);
    let ct = int_text(b.crew as int);
    lemma_int_text_chars(b.duration as int);
    lemma_int_text_chars(b.crew as int);
    let r3 = dt + seq!['|'] + ct;
    let r2 = b.date + seq!['|'] + r3;
    let r1 = b.id + seq!['|'] + r2;
    assert(encode_text(b) =~= b.code + seq!['|'] + r1);
    lemma_split_concat(b.code, r1, '|');
    lemma_split_concat(b.id, r2, '|');
    lemma_split_concat(b.date, r3, '|');
    lemma_split_concat(dt, ct, '|');
    lemma_split_no_sep(b.code, '|');
    lemma_split_no_sep(b.id, '|');
    lemma_split_no_sep(b.date, '|');
    lemma_split_no_sep(dt, '|');
    lemma_split_no_sep(ct, '|');
    let p = split(encode_text(b), '|');
    assert(p =~= seq![b.code, b.id, b.date, dt, ct]);
    lemma_i64_text_roundtrip(b.duration);
    lemma_i64_text_roundtrip(b.crew);
}

/// The fields of the mission kept so far by `find_longest`, as positions
/// within the log.
struct Kept {
    duration: i64,
    crew: i64,
    code: (usize, usize),
    id: (usize, usize),
    date: (usize, usize),
}

/// `best` stands for the line that `select` picks among `done`.
spec fn keeps(
    best: Option<Kept>,
    v: Seq<char>,
    done: Seq<Seq<char>>,
    dest: Seq<char>,
    status: Seq<char>,
) -> bool {
    match (best, select(done, dest, status)) {
        (None, None) => true,
        (Some(c), Some(k)) => {
            &&& 0 <= k < done.len()
            &&& span_in(c.code, v.len() as int)
            &&& span_in(c.id, v.len() as int)
            &&& span_in(c.date, v.len() as int)
            &&& spec_parse_line(done[k]) matches Some(m)
            &&& m.security_code == span_text(v, c.code)
            &&& m.id == span_text(v, c.id)
            &&& m.date == span_text(v, c.date)
            &&& m.duration == c.duration
            &&& m.crew == c.crew
        },
        _ => false,
    }
}

/// Law: `select` picks a matching line whose duration no matching line
/// exceeds and that no earlier matching line equals; it picks nothing only
/// when no line matches.
pub proof fn lemma_select_first_longest(ls: Seq<Seq<char>>, dest: Seq<char>, status: Seq<char>)
    ensures
        match select(ls, dest, status) {
            Some(i) => {
                &&& 0 <= i < ls.len()
                &&& matches_filter(ls[i], dest, status)
                &&& forall|j: int|
                    0 <= j < ls.len() && matches_filter(#[trigger] ls[j], dest, status)
                        ==> line_duration(ls[j]) <= line_duration(ls[i])
                &&& forall|j: int|
                    0 <= j < i && matches_filter(#[trigger] ls[j], dest, status) ==> line_duration(
                        ls[j],
                    ) < line_duration(ls[i])
            },
            None => forall|j: int|
                0 <= j < ls.len() ==> !matches_filter(#[trigger] ls[j], dest, status),
        },
    decreases ls.len(),
{
    if ls.len() > 0 {
        let t = ls.drop_last();
        lemma_select_first_longest(t, dest, status);
        assert forall|j: int| 0 <= j < t.len() implies t[j] == ls[j] by {}
    }
}

/// Offers the line `v[a..b]` to the kept mission.
fn consider(
    v: &Vec<char>,
    a: usize,
    b: usize,
    dest: &Vec<char>,
    status: &Vec<char>,
    words: &NoiseWords,
    best: &mut Option<Kept>,
    Ghost(done): Ghost<Seq<Seq<char>>>,
)
    requires
        a <= b <= v.len(),
        words.wf(),
        keeps(*old(best), v@, done, dest@, status@),
    ensures
        keeps(*final(best), v@, done.push(v@.subrange(a as int, b as int)), dest@, status@),
{
    let ghost l = v@.subrange(a as int, b as int);
    let ghost all = done.push(l);
    assert(all.drop_last() =~= done);
    assert(all[all.len() - 1] == l);
    proof {
        lemma_select_first_longest(done, dest@, status@);
    }
    match parse_span(v, a, b, words) {
        None => {},
        Some(x) => {
            if range_eq(v, x.destination.0, x.destination.1, dest) && range_eq(
                v,
                x.status.0,
                x.status.1,
                status,
            ) {
                let replace = match &*best {
                    None => true,
                    Some(c) => x.duration > c.duration,
                };
                if replace {
                    *best = Some(
                        Kept {
                            duration: x.duration,
                            crew: x.crew,
                            code: x.code,
                            id: x.id,
                            date: x.date,
                        },
                    );
                }
            }
        },
    }
}

/// Scans the log and returns the longest mission with the given destination
/// and status, the first one among equals; `None` where no line matches.
pub fn find_longest(log: &str, destination: &str, status: &str) -> (res: Option<Best>)
    ensures
        match res {
            Some(b) => spec_find_longest(log@, destination@, status@) == Some(b@),
            None => spec_find_longest(log@, destination@, status@) is None,
        },
        res is None <==> forall|j: int|
            0 <= j < lines(log@).len() ==> !(#[trigger] spec_parse_line(lines(log@)[j]) matches Some(
                m,
            ) && m.destination == destination@ && m.status == status@),
        res matches Some(b) ==> exists|i: int|
            0 <= i < lines(log@).len() && (#[trigger] spec_parse_line(lines(log@)[i]) matches Some(m)
                && m.destination == destination@ && m.status == status@ && b@ == best_of(m)),
{
    proof {
        lemma_find_longest_filter(log@, destination@, status@);
    }
    let v = chars_of(log);
    let dest = chars_of(destination);
    let st = chars_of(status);
    let words = NoiseWords::new();
    let n = v.len();
    let mut best: Option<Kept> = None;
    let mut start: usize = 0;
    let mut i: usize = 0;
    assert(v@.subrange(0, 0) =~= Seq::<char>::empty());
    assert(ended_lines(v@.subrange(0, 0)) =~= Seq::<Seq<char>>::empty());
    while i < n
        invariant
            0 <= start <= i <= n == v.len(),
            v@ == log@,
            dest@ == destination@,
            st@ == status@,
            words.wf(),
            split(v@.subrange(0, i as int), '\n').last() == v@.subrange(start as int, i as int),
            keeps(best, v@, ended_lines(v@.subrange(0, i as int)), dest@, st@),
        decreases n - i,
    {
        let ghost pre = v@.subrange(0, i as int);
        let ghost post = v@.subrange(0, i + 1);
        let ghost p = split(pre, '\n');
        assert(post.drop_last() =~= pre);
        assert(post.last() == v@[i as int]);
        proof {
            lemma_split_nonempty(pre, '\n');
        }
        if v[i] == '\n' {
            let end = if i > start && v[i - 1] == '\r' {
                i - 1
            } else {
                i
            };
            let ghost line = v@.subrange(start as int, i as int);
            assert(v@.subrange(start as int, end as int) =~= strip_cr(line));
            assert(ended_lines(post) =~= ended_lines(pre).push(strip_cr(line)));
            consider(&v, start, end, &dest, &st, &words, &mut best, Ghost(ended_lines(pre)));
            start = i + 1;
            assert(v@.subrange(start as int, i + 1) =~= Seq::<char>::empty());
        } else {
            assert(ended_lines(post) =~= ended_lines(pre));
            assert(v@.subrange(start as int, i + 1) =~= v@.subrange(start as int, i as int).push(
                v@[i as int],
            ));
        }
        i += 1;
    }
    assert(v@.subrange(0, n as int) =~= v@);
    if start < n {
        consider(&v, start, n, &dest, &st, &words, &mut best, Ghost(ended_lines(v@)));
    } else {
        assert(v@.subrange(start as int, n as int) =~= Seq::<char>::empty());
    }
    match best {
        None => None,
        Some(c) => Some(
            Best {
                code: string_from_range(&v, c.code.0, c.code.1),
                id: string_from_range(&v, c.id.0, c.id.1),
                date: string_from_range(&v, c.date.0, c.date.1),
                duration: c.duration,
                crew: c.crew,
            },
        ),
    }
}

/// Law: `find_longest` finds nothing exactly when no line of the log holds
/// a mission with the destination and status asked for; otherwise what it
/// finds is the summary of a matching line whose duration no matching line
/// exceeds and that no earlier matching line equals.
pub proof fn lemma_find_longest_first_longest(log: Seq<char>, dest: Seq<char>, status: Seq<char>)
    ensures
        spec_find_longest(log, dest, status) is None <==> forall|j: int|
            0 <= j < lines(log).len() ==> !matches_filter(#[trigger] lines(log)[j], dest, status),
        spec_find_longest(log, dest, status) matches Some(b) ==> exists|i: int|
            {
                &&& 0 <= i < lines(log).len()
                &&& matches_filter(#[trigger] lines(log)[i], dest, status)
                &&& b == best_of(spec_parse_line(lines(log)[i]).unwrap())
                &&& forall|j: int|
                    0 <= j < lines(log).len() && matches_filter(#[trigger] lines(log)[j], dest, status)
                        ==> line_duration(lines(log)[j]) <= b.duration
                &&& forall|j: int|
                    0 <= j < i && matches_filter(#[trigger] lines(log)[j], dest, status)
                        ==> line_duration(lines(log)[j]) < b.duration
            },
{
    let ls = lines(log);
    lemma_select_first_longest(ls, dest, status);
    match select(ls, dest, status) {
        Some(i) => {
            assert(matches_filter(ls[i], dest, status));
        },
        None => {},
    }
}

/// A field as a mission line yields it: nonempty, without `|`, and
/// neither beginning nor ending with whitespace.
pub open spec fn clean_field(f: Seq<char>) -> bool {
    &&& f.len() > 0
    &&& !contains_char(f, '|')
    &&& !is_ws(f[0])
    &&& !is_ws(f.last())
}

/// Law: every text field of a mission read from a line is nonempty, holds
/// no `|`, and neither begins nor ends with whitespace, however the line
/// was padded.
pub proof fn lemma_parsed_fields_clean(l: Seq<char>)
    ensures
        spec_parse_line(l) matches Some(m) ==> {
            &&& clean_field(m.date)
            &&& clean_field(m.id)
            &&& clean_field(m.destination)
            &&& clean_field(m.status)
            &&& clean_field(m.security_code)
        },
{
    if spec_parse_line(l) is Some {
        let p = split(trim(l), '|');
        lemma_split_pieces_no_sep(trim(l), '|');
        assert forall|k: int| 0 <= k < p.len() implies clean_field(#[trigger] line_fields(l)[k])
            || line_fields(l)[k].len() == 0 by {
            assert(!contains_char(p[k], '|'));
            lemma_trim_keeps_absence(p[k], '|');
            lemma_trim_bounds(p[k]);
        }
        assert(line_fields(l).len() == p.len());
    }
}

/// The index `select` picks among two runs of lines, from what it picks in
/// each: the second run's pick wins only with a strictly longer duration.
pub open spec fn select_joined(
    l1: Seq<Seq<char>>,
    l2: Seq<Seq<char>>,
    dest: Seq<char>,
    status: Seq<char>,
) -> Option<int> {
    match (select(l1, dest, status), select(l2, dest, status)) {
        (i, None) => i,
        (None, Some(j)) => Some(l1.len() + j),
        (Some(i), Some(j)) => if line_duration(l2[j]) > line_duration(l1[i]) {
            Some(l1.len() + j)
        } else {
            Some(i)
        },
    }
}

/// `select` over two runs of lines combines its picks in each run.
pub proof fn lemma_select_concat(
    l1: Seq<Seq<char>>,
    l2: Seq<Seq<char>>,
    dest: Seq<char>,
    status: Seq<char>,
)
    ensures
        select(l1 + l2, dest, status) == select_joined(l1, l2, dest, status),
    decreases l2.len(),
{
    if l2.len() == 0 {
        assert(l1 + l2 =~= l1);
    } else {
        let t2 = l2.drop_last();
        let x = l2.last();
        lemma_select_concat(l1, t2, dest, status);
        assert((l1 + l2).drop_last() =~= l1 + t2);
        assert((l1 + l2)[(l1 + l2).len() - 1] == x);
        assert(l2.drop_last() =~= t2);
        lemma_select_first_longest(l1, dest, status);
        lemma_select_first_longest(t2, dest, status);
        match select(l1, dest, status) {
            Some(i) => {
                assert((l1 + t2)[i] == l1[i]);
            },
            None => {},
        }
        match select(t2, dest, status) {
            Some(j) => {
                assert((l1 + t2)[l1.len() + j] == t2[j]);
                assert(l2[j] == t2[j]);
            },
            None => {},
        }
    }
}

/// The longer of two summaries, the first where they are equally long.
pub open spec fn longer_of(x: Option<BestView>, y: Option<BestView>) -> Option<BestView> {
    match (x, y) {
        (None, r) => r,
        (r, None) => r,
        (Some(a), Some(b)) => if b.duration > a.duration {
            Some(b)
        } else {
            Some(a)
        },
    }
}

/// Law: where the first log is empty or ends with a line feed, what
/// `find_longest` finds in two logs joined is the longer of what it finds
/// in each, the first log's where they are equally long.
pub proof fn lemma_find_longest_concat(a: Seq<char>, b: Seq<char>, dest: Seq<char>, status: Seq<char>)
    requires
        a.len() == 0 || a.last() == '\n',
    ensures
        spec_find_longest(a + b, dest, status) == longer_of(
            spec_find_longest(a, dest, status),
            spec_find_longest(b, dest, status),
        ),
{
    lemma_lines_concat(a, b);
    let l1 = lines(a);
    let l2 = lines(b);
    lemma_select_concat(l1, l2, dest, status);
    lemma_select_first_longest(l1, dest, status);
    lemma_select_first_longest(l2, dest, status);
    match select(l1, dest, status) {
        Some(i) => {
            assert((l1 + l2)[i] == l1[i]);
        },
        None => {},
    }
    match select(l2, dest, status) {
        Some(j) => {
            assert((l1 + l2)[l1.len() + j] == l2[j]);
        },
        None => {},
    }
}

/// `select` finds a matching line in one run of lines exactly when it finds
/// one in another run holding the same lines, and then one of the same
/// duration.
pub proof fn lemma_select_same_lines(
    l1: Seq<Seq<char>>,
    l2: Seq<Seq<char>>,
    dest: Seq<char>,
    status: Seq<char>,
)
    requires
        forall|i: int| 0 <= i < l1.len() ==> l2.contains(#[trigger] l1[i]),
        forall|j: int| 0 <= j < l2.len() ==> l1.contains(#[trigger] l2[j]),
    ensures
        (select(l1, dest, status) is None) == (select(l2, dest, status) is None),
        select(l1, dest, status) matches Some(i) ==> select(l2, dest, status) matches Some(j)
            && line_duration(l1[i]) == line_duration(l2[j]),
{
    lemma_select_first_longest(l1, dest, status);
    lemma_select_first_longest(l2, dest, status);
    match select(l1, dest, status) {
        Some(i) => {
            let j1 = choose|j: int| 0 <= j < l2.len() && l2[j] == l1[i];
            assert(matches_filter(l2[j1], dest, status));
            let j = select(l2, dest, status)->0;
            let i1 = choose|k: int| 0 <= k < l1.len() && l1[k] == l2[j];
            assert(matches_filter(l1[i1], dest, status));
        },
        None => {
            match select(l2, dest, status) {
                Some(j) => {
                    let i1 = choose|k: int| 0 <= k < l1.len() && l1[k] == l2[j];
                    assert(matches_filter(l1[i1], dest, status));
                },
                None => {},
            }
        },
    }
}

/// The text of lines, each followed by a line feed.
pub open spec fn join_lines(ls: Seq<Seq<char>>) -> Seq<char>
    decreases ls.len(),
{
    if ls.len() == 0 {
        Seq::empty()
    } else {
        join_lines(ls.drop_last()) + ls.last() + seq!['\n']
    }
}

/// The lines of lines joined, each without a line feed, are those lines
/// without a carriage return at their end.
pub proof fn lemma_lines_of_joined(ls: Seq<Seq<char>>)
    requires
        forall|i: int| 0 <= i < ls.len() ==> !contains_char(#[trigger] ls[i], '\n'),
    ensures
        lines(join_lines(ls)) == ls.map_values(|l: Seq<char>| strip_cr(l)),
    decreases ls.len(),
{
    if ls.len() == 0 {
        assert(split(Seq::<char>::empty(), '\n') =~= seq![Seq::<char>::empty()]);
        assert(lines(join_lines(ls)) =~= ls.map_values(|l: Seq<char>| strip_cr(l)));
    } else {
        let t = ls.drop_last();
        let l = ls.last();
        assert forall|i: int| 0 <= i < t.len() implies !contains_char(#[trigger] t[i], '\n') by {
            assert(t[i] == ls[i]);
        }
        lemma_lines_of_joined(t);
        let jt = join_lines(t);
        assert(jt.len() == 0 || jt.last() == '\n') by {
            if t.len() > 0 {
                let jtt = join_lines(t.drop_last()) + t.last() + seq!['\n'];
                assert(jtt.last() == '\n');
            }
        }
        assert(!contains_char(l, '\n'));
        lemma_lines_concat(jt, l + seq!['\n']);
        lemma_lines_single(l);
        assert(join_lines(ls) =~= jt + (l + seq!['\n']));
        assert(lines(join_lines(ls)) =~= ls.map_values(|l: Seq<char>| strip_cr(l)));
    }
}

/// Law: the longest duration that `find_longest` finds in a log of lines,
/// each ended by a line feed, does not depend on the order of the lines;
/// only which of several equally long missions comes back can change.
pub proof fn lemma_find_longest_order(
    ls1: Seq<Seq<char>>,
    ls2: Seq<Seq<char>>,
    dest: Seq<char>,
    status: Seq<char>,
)
    requires
        ls1.to_multiset() == ls2.to_multiset(),
        forall|i: int| 0 <= i < ls1.len() ==> !contains_char(#[trigger] ls1[i], '\n'),
    ensures
        (spec_find_longest(join_lines(ls1), dest, status) is None) == (spec_find_longest(
            join_lines(ls2),
            dest,
            status,
        ) is None),
        spec_find_longest(join_lines(ls1), dest, status) matches Some(x) ==> spec_find_longest(
            join_lines(ls2),
            dest,
            status,
        ) matches Some(y) && x.duration == y.duration,
{
    broadcast use vstd::seq_lib::group_to_multiset_ensures;

    assert forall|j: int| 0 <= j < ls2.len() implies !contains_char(#[trigger] ls2[j], '\n') by {
        assert(ls2.contains(ls2[j]));
        assert(ls2.to_multiset().count(ls2[j]) > 0);
        assert(ls1.contains(ls2[j]));
    }
    lemma_lines_of_joined(ls1);
    lemma_lines_of_joined(ls2);
    let m1 = ls1.map_values(|l: Seq<char>| strip_cr(l));
    let m2 = ls2.map_values(|l: Seq<char>| strip_cr(l));
    assert forall|i: int| 0 <= i < m1.len() implies m2.contains(#[trigger] m1[i]) by {
        assert(ls1.contains(ls1[i]));
        assert(ls1.to_multiset().count(ls1[i]) > 0);
        assert(ls2.contains(ls1[i]));
        let j = choose|j: int| 0 <= j < ls2.len() && ls2[j] == ls1[i];
        assert(m2[j] == m1[i]);
    }
    assert forall|j: int| 0 <= j < m2.len() implies m1.contains(#[trigger] m2[j]) by {
        assert(ls2.contains(ls2[j]));
        assert(ls2.to_multiset().count(ls2[j]) > 0);
        assert(ls1.contains(ls2[j]));
        let i = choose|i: int| 0 <= i < ls1.len() && ls1[i] == ls2[j];
        assert(m1[i] == m2[j]);
    }
    lemma_select_same_lines(m1, m2, dest, status);
}

/// Law: `find_longest` finds nothing exactly when no line of the log reads
/// as a mission with the destination and the status asked for; what it
/// finds is the summary of a line that reads as such a mission, and no
/// such line holds a longer one.
pub proof fn lemma_find_longest_filter(log: Seq<char>, dest: Seq<char>, status: Seq<char>)
    ensures
        spec_find_longest(log, dest, status) is None <==> forall|j: int|
            0 <= j < lines(log).len() ==> !(#[trigger] spec_parse_line(lines(log)[j]) matches Some(
                m,
            ) && m.destination == dest && m.status == status),
        spec_find_longest(log, dest, status) matches Some(b) ==> exists|i: int|
            0 <= i < lines(log).len() && (#[trigger] spec_parse_line(lines(log)[i]) matches Some(m)
                && m.destination == dest && m.status == status && b == best_of(m)),
        spec_find_longest(log, dest, status) matches Some(b) ==> forall|j: int|
            0 <= j < lines(log).len() && (#[trigger] spec_parse_line(lines(log)[j]) matches Some(m)
                && m.destination == dest && m.status == status) ==> spec_parse_line(
                lines(log)[j],
            ).unwrap().duration <= b.duration,
{
    let ls = lines(log);
    lemma_select_first_longest(ls, dest, status);
    assert forall|j: int| 0 <= j < ls.len() implies matches_filter(ls[j], dest, status) == (
    #[trigger] spec_parse_line(ls[j]) matches Some(m) && m.destination == dest && m.status
        == status) by {}
    match select(ls, dest, status) {
        Some(i) => {
            assert(spec_parse_line(ls[i]) matches Some(m) && m.destination == dest && m.status
                == status);
            assert forall|j: int|
                0 <= j < ls.len() && (#[trigger] spec_parse_line(ls[j]) matches Some(m)
                    && m.destination == dest && m.status == status) implies spec_parse_line(
                ls[j],
            ).unwrap().duration <= spec_find_longest(log, dest, status)->0.duration by {
                assert(matches_filter(ls[j], dest, status));
            }
        },
        None => {
            assert forall|j: int| 0 <= j < ls.len() implies !(#[trigger] spec_parse_line(
                ls[j],
            ) matches Some(m) && m.destination == dest && m.status == status) by {
                assert(!matches_filter(ls[j], dest, status));
            }
        },
    }
}

/// Fields joined by `|`.
pub open spec fn join_fields(f: Seq<Seq<char>>) -> Seq<char>
    decreases f.len(),
{
    if f.len() == 0 {
        Seq::empty()
    } else if f.len() == 1 {
        f[0]
    } else {
        join_fields(f.drop_last()) + seq!['|'] + f.last()
    }
}

/// Splitting fields joined by `|` at `|` gives them back, where none holds
/// a `|`.
proof fn lemma_split_join(f: Seq<Seq<char>>)
    requires
        f.len() > 0,
        forall|k: int| 0 <= k < f.len() ==> !contains_char(#[trigger] f[k], '|'),
    ensures
        split(join_fields(f), '|') == f,
    decreases f.len(),
{
    if f.len() == 1 {
        lemma_split_no_sep(f[0], '|');
        assert(seq![f[0]] =~= f);
    } else {
        let t = f.drop_last();
        assert forall|k: int| 0 <= k < t.len() implies !contains_char(#[trigger] t[k], '|') by {
            assert(t[k] == f[k]);
        }
        lemma_split_join(t);
        lemma_split_concat(join_fields(t), f.last(), '|');
        lemma_split_no_sep(f.last(), '|');
        assert(t + seq![f.last()] =~= f);
    }
}

/// Text that neither begins nor ends with whitespace is its own trim.
proof fn lemma_trim_clean(s: Seq<char>)
    requires
        s.len() > 0 ==> !is_ws(s[0]) && !is_ws(s.last()),
    ensures
        trim(s) == s,
{
}

/// Law: a line written as eight fields joined by `|` (none holding a `|`
/// or beginning or ending with whitespace, the date beginning with a digit,
/// date, id, destination, status and security code nonempty, the duration
/// the text of an `i64`) reads as the mission with exactly those fields:
/// the crew is the fifth field's number, or 0 where it has none; the
/// seventh field is not read.
pub proof fn lemma_parse_line_fields(f: Seq<Seq<char>>, duration: i64)
    requires
        f.len() == 8,
        forall|k: int|
            0 <= k < 8 ==> !contains_char(#[trigger] f[k], '|') && (f[k].len() > 0 ==> !is_ws(
                f[k][0],
            ) && !is_ws(f[k].last())),
        f[0].len() > 0 && crate::number::is_digit(f[0][0]),
        f[1].len() > 0,
        f[2].len() > 0,
        f[3].len() > 0,
        f[7].len() > 0,
        parse_i64(f[5]) == Some(duration),
    ensures
        spec_parse_line(join_fields(f)) == Some(
            MissionView {
                date: f[0],
                id: f[1],
                destination: f[2],
                status: f[3],
                crew: match parse_i64(f[4]) {
                    Some(c) => c,
                    None => 0,
                },
                duration,
                security_code: f[7],
            },
        ),
{
    reveal_strlit("SYSTEM");
    reveal_strlit("CONFIG");
    reveal_strlit("CHECKSUM");
    reveal_strlit("CHECKPOINT");
    let line = join_fields(f);
    lemma_join_ends(f);
    assert(line.len() > 0 && line[0] == f[0][0] && line.last() == f[7].last());
    assert(trim_start(line) == line);
    lemma_trim_clean(line);
    assert(!is_noise_text(line)) by {
        assert(line[0] != '#');
        if starts_with(line, "SYSTEM"@) {
            assert(line.take(6)[0] == "SYSTEM"@[0]);
        }
        if starts_with(line, "CONFIG"@) {
            assert(line.take(6)[0] == "CONFIG"@[0]);
        }
        if starts_with(line, "CHECKSUM"@) {
            assert(line.take(8)[0] == "CHECKSUM"@[0]);
        }
        if starts_with(line, "CHECKPOINT"@) {
            assert(line.take(10)[0] == "CHECKPOINT"@[0]);
        }
    }
    lemma_split_join(f);
    assert forall|k: int| 0 <= k < 8 implies trim(#[trigger] f[k]) == f[k] by {
        lemma_trim_clean(f[k]);
    }
    assert(line_fields(line) =~= f);
}

/// The first and last characters of fields joined by `|`.
proof fn lemma_join_ends(f: Seq<Seq<char>>)
    requires
        f.len() > 0,
        f[0].len() > 0,
        f.last().len() > 0,
    ensures
        join_fields(f).len() > 0,
        join_fields(f)[0] == f[0][0],
        join_fields(f).last() == f.last().last(),
    decreases f.len(),
{
    if f.len() > 1 {
        let t = f.drop_last();
        if t.len() > 1 {
            lemma_join_prefix(t);
        }
        assert(join_fields(t).len() == 0 || join_fields(t)[0] == f[0][0]) by {
            if t.len() > 1 {
                lemma_join_prefix(t);
            }
        }
    }
}

/// Fields joined by `|` begin with the first field.
proof fn lemma_join_prefix(f: Seq<Seq<char>>)
    requires
        f.len() > 0,
    ensures
        join_fields(f).len() >= f[0].len(),
        join_fields(f).take(f[0].len() as int) == f[0],
    decreases f.len(),
{
    if f.len() == 1 {
        assert(f[0].take(f[0].len() as int) =~= f[0]);
    } else {
        let t = f.drop_last();
        lemma_join_prefix(t);
        let j = join_fields(t);
        assert((j + seq!['|'] + f.last()).take(f[0].len() as int) =~= j.take(f[0].len() as int));
    }
}

/// Law: a blank line, a comment (`#` after any leading whitespace), and a
/// line whose text after leading whitespace begins with `SYSTEM`,
/// `CONFIG`, `CHECKSUM` or `CHECKPOINT` never reads as a mission.
pub proof fn lemma_noise_never_parses(l: Seq<char>)
    ensures
        ({
            let t = trim_start(l);
            ||| t.len() == 0
            ||| t[0] == '#'
            ||| starts_with(t, "SYSTEM"@)
            ||| starts_with(t, "CONFIG"@)
            ||| starts_with(t, "CHECKSUM"@)
            ||| starts_with(t, "CHECKPOINT"@)
        }) ==> spec_parse_line(l) is None,
{
}

/// Joining the pieces of a split at `|` with `|` gives the text back.
proof fn lemma_join_split(s: Seq<char>)
    ensures
        join_fields(split(s, '|')) == s,
    decreases s.len(),
{
    lemma_split_nonempty(s, '|');
    if s.len() == 0 {
        assert(split(s, '|') =~= seq![Seq::<char>::empty()]);
        assert(s =~= Seq::<char>::empty());
    } else {
        let t = s.drop_last();
        let c = s.last();
        let p = split(t, '|');
        lemma_split_nonempty(t, '|');
        lemma_join_split(t);
        assert(t.push(c) =~= s);
        if c == '|' {
            let q = p.push(Seq::<char>::empty());
            assert(q.drop_last() =~= p);
            assert(join_fields(q) =~= join_fields(p) + seq!['|'] + Seq::<char>::empty());
        } else {
            let q = p.update(p.len() - 1, p.last().push(c));
            if p.len() == 1 {
                assert(join_fields(p) == p[0]);
                assert(join_fields(q) == q[0]);
                assert(q[0] =~= p[0].push(c));
            } else {
                assert(q.drop_last() =~= p.drop_last());
                assert(join_fields(q) =~= join_fields(p.drop_last()) + seq!['|'] + p.last().push(c));
                assert(join_fields(p) =~= join_fields(p.drop_last()) + seq!['|'] + p.last());
            }
        }
    }
}

/// Law: what `decode` reads is the text it was given, cut at its four `|`
/// into code, id, date and the texts of the two numbers; code, id and date
/// hold no `|`.
pub proof fn lemma_decode_reads_fields(s: Seq<char>)
    ensures
        decode_text(s) matches Some(b) ==> exists|dt: Seq<char>, ct: Seq<char>|
            {
                &&& s == join_fields(seq![b.code, b.id, b.date, dt, ct])
                &&& parse_i64(dt) == Some(b.duration)
                &&& parse_i64(ct) == Some(b.crew)
                &&& !contains_char(b.code, '|')
                &&& !contains_char(b.id, '|')
                &&& !contains_char(b.date, '|')
            },
{
    if let Some(b) = decode_text(s) {
        let p = split(s, '|');
        lemma_join_split(s);
        lemma_split_pieces_no_sep(s, '|');
        assert(p =~= seq![b.code, b.id, b.date, p[3], p[4]]);
        assert(s == join_fields(seq![b.code, b.id, b.date, p[3], p[4]]));
    }
}

} // verus!
