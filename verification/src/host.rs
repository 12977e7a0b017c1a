//! The host's decisions: reading its command line, and making sense of
//! what the skill hands back.
use vstd::prelude::*;

use crate::mission::{decode_text, Best, BestView};
use crate::number::{
    int_text, is_digit, lemma_int_text_chars, lemma_nat_text_first, lemma_parse_int_text, nat_text,
    parse_u32, parse_u32_range,
};
use crate::skill::{str_from_utf8, unpack};
use vstd::utf8::{decode_utf8, valid_utf8};
use crate::text::{chars_of, range_eq, range_starts_with, starts_with, string_from_range};

verus! {

/// The host's settings.
pub struct Args {
    pub log_path: String,
    pub skill_path: String,
    pub destination: String,
    pub status: String,
    pub native: bool,
    pub benchmark: bool,
    pub bench_iters: u32,
}

/// The contents of `Args`.
pub struct ArgsView {
    pub log_path: Seq<char>,
    pub skill_path: Seq<char>,
    pub destination: Seq<char>,
    pub status: Seq<char>,
    pub native: bool,
    pub benchmark: bool,
    pub bench_iters: u32,
}

impl View for Args {
    type V = ArgsView;

    open spec fn view(&self) -> ArgsView {
        ArgsView {
            log_path: self.log_path@,
            skill_path: self.skill_path@,
            destination: self.destination@,
            status: self.status@,
            native: self.native,
            benchmark: self.benchmark,
            bench_iters: self.bench_iters,
        }
    }
}

/// Why a command line is refused.
#[derive(Debug)]
pub enum CliError {
    /// No log file given, or help asked for.
    Usage,
    /// The value of `--iters=` is not a positive `u32`.
    InvalidIters(String),
    /// An argument that is none of the options.
    UnknownArg(String),
}

/// The contents of a `CliError`.
pub enum CliErrorView {
    Usage,
    InvalidIters(Seq<char>),
    UnknownArg(Seq<char>),
}

impl View for CliError {
    type V = CliErrorView;

    open spec fn view(&self) -> CliErrorView {
        match self {
            CliError::Usage => CliErrorView::Usage,
            CliError::InvalidIters(v) => CliErrorView::InvalidIters(v@),
            CliError::UnknownArg(a) => CliErrorView::UnknownArg(a@),
        }
    }
}

/// The settings before any option is read.
pub open spec fn default_args(log_path: Seq<char>) -> ArgsView {
    ArgsView {
        log_path,
        skill_path: "mission_skill.wasm"@,
        destination: "Mars"@,
        status: "Completed"@,
        native: false,
        benchmark: false,
        bench_iters: 11,
    }
}

/// The settings after reading one option.
pub open spec fn apply_arg(a: ArgsView, arg: Seq<char>) -> Result<ArgsView, CliErrorView> {
    if starts_with(arg, "--skill="@) {
        Ok(ArgsView { skill_path: arg.skip("--skill="@.len() as int), ..a })
    } else if starts_with(arg, "--destination="@) {
        Ok(ArgsView { destination: arg.skip("--destination="@.len() as int), ..a })
    } else if starts_with(arg, "--status="@) {
        Ok(ArgsView { status: arg.skip("--status="@.len() as int), ..a })
    } else if starts_with(arg, "--iters="@) {
        let v = arg.skip("--iters="@.len() as int);
        match parse_u32(v) {
            Some(n) => if n > 0 {
                Ok(ArgsView { bench_iters: n, ..a })
            } else {
                Err(CliErrorView::InvalidIters(v))
            },
            None => Err(CliErrorView::InvalidIters(v)),
        }
    } else if arg == "--native"@ {
        Ok(ArgsView { native: true, ..a })
    } else if arg == "--bench"@ {
        Ok(ArgsView { benchmark: true, ..a })
    } else {
        Err(CliErrorView::UnknownArg(arg))
    }
}

/// The settings after reading the options in order; the first refused one
/// decides the error.
pub open spec fn apply_args(a: ArgsView, opts: Seq<Seq<char>>) -> Result<ArgsView, CliErrorView>
    decreases opts.len(),
{
    if opts.len() == 0 {
        Ok(a)
    } else {
        match apply_args(a, opts.drop_last()) {
            Ok(b) => apply_arg(b, opts.last()),
            Err(e) => Err(e),
        }
    }
}

/// What the command line `raw` (program name first) gives: the usage error
/// where no log file is named or the first argument asks for help;
/// otherwise the settings from the options after the log file.
pub open spec fn spec_parse_args(raw: Seq<Seq<char>>) -> Result<ArgsView, CliErrorView> {
    if raw.len() < 2 || raw[1] == "-h"@ || raw[1] == "--help"@ {
        Err(CliErrorView::Usage)
    } else {
        apply_args(default_args(raw[1]), raw.skip(2))
    }
}

/// The texts of a list of strings.
pub open spec fn texts(raw: Seq<String>) -> Seq<Seq<char>> {
    raw.map_values(|s: String| s@)
}

/// The option words, as character vectors.
struct Words {
    skill: Vec<char>,
    destination: Vec<char>,
    status: Vec<char>,
    iters: Vec<char>,
    native: Vec<char>,
    bench: Vec<char>,
}

impl Words {
    spec fn wf(&self) -> bool {
        &&& self.skill@ == "--skill="@
        &&& self.destination@ == "--destination="@
        &&& self.status@ == "--status="@
        &&& self.iters@ == "--iters="@
        &&& self.native@ == "--native"@
        &&& self.bench@ == "--bench"@
    }
}

/// Reads one option into `args`.
fn read_option(args: &mut Args, arg: &String, w: &Words) -> (r: Result<(), CliError>)
    requires
        w.wf(),
    ensures
        match apply_arg(old(args)@, arg@) {
            Ok(a) => r is Ok && final(args)@ == a,
            Err(e) => (r matches Err(x) && x@ == e),
        },
{
    let v = chars_of(arg.as_str());
    let n = v.len();
    assert(v@.subrange(0, n as int) =~= arg@);
    if range_starts_with(&v, 0, n, &w.skill) {
        assert(v@.subrange(w.skill@.len() as int, n as int) =~= arg@.skip(w.skill@.len() as int));
        args.skill_path = string_from_range(&v, w.skill.len(), n);
        Ok(())
    } else if range_starts_with(&v, 0, n, &w.destination) {
        assert(v@.subrange(w.destination@.len() as int, n as int) =~= arg@.skip(
            w.destination@.len() as int,
        ));
        args.destination = string_from_range(&v, w.destination.len(), n);
        Ok(())
    } else if range_starts_with(&v, 0, n, &w.status) {
        assert(v@.subrange(w.status@.len() as int, n as int) =~= arg@.skip(
            w.status@.len() as int,
        ));
        args.status = string_from_range(&v, w.status.len(), n);
        Ok(())
    } else if range_starts_with(&v, 0, n, &w.iters) {
        let k = w.iters.len();
        assert(v@.subrange(k as int, n as int) =~= arg@.skip(k as int));
        match parse_u32_range(&v, k, n) {
            Some(m) => {
                if m > 0 {
                    args.bench_iters = m;
                    Ok(())
                } else {
                    Err(CliError::InvalidIters(string_from_range(&v, k, n)))
                }
            },
            None => Err(CliError::InvalidIters(string_from_range(&v, k, n))),
        }
    } else if range_eq(&v, 0, n, &w.native) {
        args.native = true;
        Ok(())
    } else if range_eq(&v, 0, n, &w.bench) {
        args.benchmark = true;
        Ok(())
    } else {
        Err(CliError::UnknownArg(arg.clone()))
    }
}

/// Reads the command line `raw`, program name first, then the log file,
/// then options: `--skill=`, `--destination=`, `--status=`, `--iters=`
/// (a positive `u32`), `--native` and `--bench`.
pub fn parse_args(raw: &Vec<String>) -> (r: Result<Args, CliError>)
    ensures
        match r {
            Ok(a) => spec_parse_args(texts(raw@)) == Ok::<ArgsView, CliErrorView>(a@),
            Err(e) => spec_parse_args(texts(raw@)) == Err::<ArgsView, CliErrorView>(e@),
        },
{
    let ghost t = texts(raw@);
    if raw.len() < 2 {
        return Err(CliError::Usage);
    }
    let first = chars_of(raw[1].as_str());
    let help_short = chars_of("-h");
    let help_long = chars_of("--help");
    assert(first@.subrange(0, first@.len() as int) =~= first@);
    if range_eq(&first, 0, first.len(), &help_short) || range_eq(
        &first,
        0,
        first.len(),
        &help_long,
    ) {
        return Err(CliError::Usage);
    }
    let w = Words {
        skill: chars_of("--skill="),
        destination: chars_of("--destination="),
        status: chars_of("--status="),
        iters: chars_of("--iters="),
        native: chars_of("--native"),
        bench: chars_of("--bench"),
    };
    let mut args = Args {
        log_path: raw[1].clone(),
        skill_path: "mission_skill.wasm".to_owned(),
        destination: "Mars".to_owned(),
        status: "Completed".to_owned(),
        native: false,
        benchmark: false,
        bench_iters: 11,
    };
    let mut k: usize = 2;
    assert(t[1] == raw@[1]@);
    assert(spec_parse_args(t) == apply_args(default_args(t[1]), t.skip(2)));
    assert(t.skip(2).take(0) =~= Seq::<Seq<char>>::empty());
    while k < raw.len()
        invariant
            2 <= k <= raw.len(),
            t == texts(raw@),
            t.len() == raw@.len(),
            w.wf(),
            spec_parse_args(t) == apply_args(default_args(t[1]), t.skip(2)),
            apply_args(default_args(t[1]), t.skip(2).take(k - 2)) == Ok::<
                ArgsView,
                CliErrorView,
            >(args@),
        decreases raw.len() - k,
    {
        let ghost done = t.skip(2).take(k - 2);
        let ghost next = t.skip(2).take(k - 1);
        assert(next.drop_last() =~= done);
        assert(next.last() == raw@[k as int]@);
        let ghost before = args@;
        match read_option(&mut args, &raw[k], &w) {
            Ok(()) => {},
            Err(e) => {
                assert(apply_args(default_args(t[1]), next) == Err::<ArgsView, CliErrorView>(
                    e@,
                ));
                assert(t.skip(2).take(raw.len() - 2) =~= t.skip(2));
                proof {
                    lemma_apply_args_stops(default_args(t[1]), t.skip(2), k - 1);
                }
                assert(spec_parse_args(t) == Err::<ArgsView, CliErrorView>(e@));
                return Err(e);
            },
        }
        k += 1;
    }
    assert(t.skip(2).take(raw.len() - 2) =~= t.skip(2));
    Ok(args)
}

/// Reading one option turns benchmarking on only for `--bench`, and the
/// native path only for `--native`, and turns neither off.
proof fn lemma_apply_arg_flags(b: ArgsView, arg: Seq<char>)
    ensures
        apply_arg(b, arg) matches Ok(c) ==> {
            &&& c.benchmark == (b.benchmark || arg == "--bench"@)
            &&& c.native == (b.native || arg == "--native"@)
            &&& c.log_path == b.log_path
        },
{
    reveal_strlit("--bench");
    reveal_strlit("--native");
    reveal_strlit("--skill=");
    reveal_strlit("--destination=");
    reveal_strlit("--status=");
    reveal_strlit("--iters=");
    assert("--bench"@.len() == 7);
    assert("--native"@.len() == 8);
    if arg == "--native"@ {
        assert(arg.take(8)[2] != "--skill="@[2]);
        assert(arg.take(8)[2] != "--iters="@[2]);
        assert(arg != "--bench"@);
    }
    if arg == "--bench"@ {
        assert(arg != "--native"@);
    }
}

/// The flags after reading options: on where they were on before, or where
/// some option is exactly `--bench` (or `--native`).
proof fn lemma_apply_args_flags(a0: ArgsView, opts: Seq<Seq<char>>)
    ensures
        apply_args(a0, opts) matches Ok(a) ==> {
            &&& a.benchmark == (a0.benchmark || exists|k: int|
                0 <= k < opts.len() && #[trigger] opts[k] == "--bench"@)
            &&& a.native == (a0.native || exists|k: int|
                0 <= k < opts.len() && #[trigger] opts[k] == "--native"@)
            &&& a.log_path == a0.log_path
        },
    decreases opts.len(),
{
    if opts.len() > 0 {
        let t = opts.drop_last();
        lemma_apply_args_flags(a0, t);
        if let Ok(b) = apply_args(a0, t) {
            lemma_apply_arg_flags(b, opts.last());
            if let Ok(a) = apply_args(a0, opts) {
                if exists|k: int| 0 <= k < t.len() && #[trigger] t[k] == "--bench"@ {
                    let k = choose|k: int| 0 <= k < t.len() && #[trigger] t[k] == "--bench"@;
                    assert(opts[k] == t[k]);
                }
                if exists|k: int| 0 <= k < opts.len() && #[trigger] opts[k] == "--bench"@ {
                    let k = choose|k: int| 0 <= k < opts.len() && #[trigger] opts[k] == "--bench"@;
                    if k < t.len() {
                        assert(t[k] == opts[k]);
                    }
                }
                if exists|k: int| 0 <= k < t.len() && #[trigger] t[k] == "--native"@ {
                    let k = choose|k: int| 0 <= k < t.len() && #[trigger] t[k] == "--native"@;
                    assert(opts[k] == t[k]);
                }
                if exists|k: int| 0 <= k < opts.len() && #[trigger] opts[k] == "--native"@ {
                    let k = choose|k: int| 0 <= k < opts.len() && #[trigger] opts[k] == "--native"@;
                    if k < t.len() {
                        assert(t[k] == opts[k]);
                    }
                }
            }
        }
    }
}

/// Law: in the settings that a command line gives, the log path is the
/// first argument after the program name, benchmarking is on exactly when
/// some option after it is `--bench`, and the native path is chosen exactly
/// when some option after it is `--native`.
pub proof fn lemma_mode_flags(raw: Seq<Seq<char>>)
    ensures
        spec_parse_args(raw) matches Ok(a) ==> {
            &&& a.benchmark == exists|k: int| 2 <= k < raw.len() && #[trigger] raw[k] == "--bench"@
            &&& a.native == exists|k: int| 2 <= k < raw.len() && #[trigger] raw[k] == "--native"@
            &&& a.log_path == raw[1]
        },
{
    if raw.len() >= 2 {
        let opts = raw.skip(2);
        lemma_apply_args_flags(default_args(raw[1]), opts);
        if exists|k: int| 2 <= k < raw.len() && #[trigger] raw[k] == "--bench"@ {
            let k = choose|k: int| 2 <= k < raw.len() && #[trigger] raw[k] == "--bench"@;
            assert(opts[k - 2] == raw[k]);
        }
        if exists|k: int| 0 <= k < opts.len() && #[trigger] opts[k] == "--bench"@ {
            let k = choose|k: int| 0 <= k < opts.len() && #[trigger] opts[k] == "--bench"@;
            assert(raw[k + 2] == opts[k]);
        }
        if exists|k: int| 2 <= k < raw.len() && #[trigger] raw[k] == "--native"@ {
            let k = choose|k: int| 2 <= k < raw.len() && #[trigger] raw[k] == "--native"@;
            assert(opts[k - 2] == raw[k]);
        }
        if exists|k: int| 0 <= k < opts.len() && #[trigger] opts[k] == "--native"@ {
            let k = choose|k: int| 0 <= k < opts.len() && #[trigger] opts[k] == "--native"@;
            assert(raw[k + 2] == opts[k]);
        }
    }
}

/// Law: `--iters=` followed by the decimal text of any positive `u32` sets
/// the number of benchmark iterations to it and changes nothing else.
pub proof fn lemma_iters_accepted(a: ArgsView, n: u32)
    requires
        n > 0,
    ensures
        apply_arg(a, "--iters="@ + nat_text(n as nat)) == Ok::<ArgsView, CliErrorView>(
            ArgsView { bench_iters: n, ..a },
        ),
{
    lemma_iters_value(a, nat_text(n as nat));
    lemma_parse_int_text(n as int);
    let t = nat_text(n as nat);
    assert(int_text(n as int) == t);
    assert(t.len() > 0 && is_digit(t[0])) by {
        lemma_int_text_chars(n as int);
        lemma_nat_text_first(n as nat);
    }
    assert(parse_u32(t) == Some(n));
}

/// Law: `--iters=` followed by a value is refused exactly when the value
/// does not read as a `u32` or reads as 0, and the error names the value.
pub proof fn lemma_iters_refused(a: ArgsView, v: Seq<char>)
    ensures
        apply_arg(a, "--iters="@ + v) is Err <==> (parse_u32(v) is None || parse_u32(v) == Some(
            0u32,
        )),
        apply_arg(a, "--iters="@ + v) matches Err(e) ==> e == CliErrorView::InvalidIters(v),
        apply_arg(a, "--iters="@ + v) matches Ok(b) ==> b == (ArgsView {
            bench_iters: parse_u32(v)->0,
            ..a
        }),
{
    lemma_iters_value(a, v);
}

/// Law: `--skill=`, `--destination=` and `--status=` followed by any text
/// set the skill path, the destination and the status to that text, and
/// change nothing else.
pub proof fn lemma_value_options(a: ArgsView, v: Seq<char>)
    ensures
        apply_arg(a, "--skill="@ + v) == Ok::<ArgsView, CliErrorView>(
            ArgsView { skill_path: v, ..a },
        ),
        apply_arg(a, "--destination="@ + v) == Ok::<ArgsView, CliErrorView>(
            ArgsView { destination: v, ..a },
        ),
        apply_arg(a, "--status="@ + v) == Ok::<ArgsView, CliErrorView>(
            ArgsView { status: v, ..a },
        ),
{
    reveal_strlit("--skill=");
    reveal_strlit("--destination=");
    reveal_strlit("--status=");
    let s1 = "--skill="@ + v;
    assert(s1.take(8) =~= "--skill="@);
    assert(s1.skip(8) =~= v);
    let s2 = "--destination="@ + v;
    assert(!starts_with(s2, "--skill="@)) by {
        if starts_with(s2, "--skill="@) {
            assert(s2.take(8)[2] == "--skill="@[2]);
        }
    }
    assert(s2.take(14) =~= "--destination="@);
    assert(s2.skip(14) =~= v);
    let s3 = "--status="@ + v;
    assert(!starts_with(s3, "--skill="@)) by {
        if starts_with(s3, "--skill="@) {
            assert(s3.take(8)[3] == "--skill="@[3]);
        }
    }
    assert(!starts_with(s3, "--destination="@)) by {
        if starts_with(s3, "--destination="@) {
            assert(s3.take(14)[2] == "--destination="@[2]);
        }
    }
    assert(s3.take(9) =~= "--status="@);
    assert(s3.skip(9) =~= v);
}

/// An option `--iters=` followed by `v` reads `v` as the iteration count.
proof fn lemma_iters_value(a: ArgsView, v: Seq<char>)
    ensures
        (parse_u32(v) is Some && 0 < parse_u32(v)->0) ==> apply_arg(a, "--iters="@ + v) == Ok::<
            ArgsView,
            CliErrorView,
        >(ArgsView { bench_iters: parse_u32(v)->0, ..a }),
        !(parse_u32(v) is Some && 0 < parse_u32(v)->0) ==> apply_arg(a, "--iters="@ + v) == Err::<
            ArgsView,
            CliErrorView,
        >(CliErrorView::InvalidIters(v)),
{
    reveal_strlit("--skill=");
    reveal_strlit("--destination=");
    reveal_strlit("--status=");
    reveal_strlit("--iters=");
    let arg = "--iters="@ + v;
    assert(arg[2] == 'i');
    assert(!starts_with(arg, "--skill="@)) by {
        if starts_with(arg, "--skill="@) {
            assert(arg.take(8)[2] == "--skill="@[2]);
        }
    }
    assert(!starts_with(arg, "--destination="@)) by {
        if starts_with(arg, "--destination="@) {
            assert(arg.take(14)[2] == "--destination="@[2]);
        }
    }
    assert(!starts_with(arg, "--status="@)) by {
        if starts_with(arg, "--status="@) {
            assert(arg.take(9)[2] == "--status="@[2]);
        }
    }
    assert(arg.take(8) =~= "--iters="@);
    assert(arg.skip(8) =~= v);
}

/// Once an option is refused, the options after it do not matter.
proof fn lemma_apply_args_stops(a: ArgsView, opts: Seq<Seq<char>>, k: int)
    requires
        0 <= k <= opts.len(),
        apply_args(a, opts.take(k)) is Err,
    ensures
        apply_args(a, opts) == apply_args(a, opts.take(k)),
    decreases opts.len() - k,
{
    if k < opts.len() {
        let next = opts.take(k + 1);
        assert(next.drop_last() =~= opts.take(k));
        lemma_apply_args_stops(a, opts, k + 1);
    } else {
        assert(opts.take(k) =~= opts);
    }
}

/// The call into the skill that trapped.
#[derive(Debug, Clone, Copy, PartialEq, Eq)]
pub enum Stage {
    AllocLog,
    WriteLog,
    AllocFilter,
    WriteFilter,
    Analyze,
    ReadResult,
}

/// Why a run of the skill gives no answer.
#[derive(Debug, Clone, Copy, PartialEq, Eq)]
pub enum RunError {
    /// The skill answered with its error value.
    ErrorSentinel,
    /// A nonzero answer whose address half is zero.
    NullPointer,
    /// The result bytes are not UTF-8.
    NotUtf8,
    /// The result text is not `code|id|date|duration|crew`.
    WrongShape,
    /// The skill's allocator returned no buffer for the log.
    LogAllocFailed,
    /// The skill's allocator returned no buffer for the filter.
    FilterAllocFailed,
    /// A call into the skill trapped.
    Trap(Stage),
    /// An event that the protocol does not expect at this point.
    UnexpectedEvent,
}

/// The outcome of reading a result, with its summary by contents.
pub open spec fn outcome_view(r: Result<Option<Best>, RunError>) -> Result<Option<BestView>, RunError> {
    match r {
        Ok(Some(b)) => Ok(Some(b@)),
        Ok(None) => Ok(None),
        Err(e) => Err(e),
    }
}

/// What the host makes of the `len` result bytes `out` that it read.
pub open spec fn spec_read_result(len: u32, out: Seq<u8>) -> Result<Option<BestView>, RunError> {
    if len == 0 {
        Ok(None)
    } else if !valid_utf8(out) {
        Err(RunError::NotUtf8)
    } else {
        match decode_text(decode_utf8(out)) {
            Some(b) => Ok(Some(b)),
            None => Err(RunError::WrongShape),
        }
    }
}

/// Where the skill's result buffer lies, from its packed answer: the error
/// answer is 0, and a nonzero answer must have a nonzero address.
pub fn result_location(packed: u64) -> (r: Result<(u32, u32), RunError>)
    ensures
        packed == 0 ==> r matches Err(RunError::ErrorSentinel),
        packed != 0 && packed < 0x1_0000_0000 ==> r matches Err(RunError::NullPointer),
        packed >= 0x1_0000_0000 ==> (r matches Ok((ptr, len)) && packed as int == ptr as int
            * 0x1_0000_0000 + len as int),
{
    if packed == 0 {
        return Err(RunError::ErrorSentinel);
    }
    let (ptr, len) = unpack(packed);
    if ptr == 0 {
        return Err(RunError::NullPointer);
    }
    Ok((ptr, len))
}

/// What the host makes of the `len` result bytes `out` that it read: no
/// match for an empty result, otherwise the decoded summary.
pub fn read_result(len: u32, out: &[u8]) -> (r: Result<Option<Best>, RunError>)
    ensures
        outcome_view(r) == spec_read_result(len, out@),
        len == 0 ==> r matches Ok(None),
        len != 0 && !valid_utf8(out@) ==> r matches Err(RunError::NotUtf8),
        len != 0 && valid_utf8(out@) ==> match decode_text(decode_utf8(out@)) {
            Some(b) => (r matches Ok(Some(x)) && x@ == b),
            None => r matches Err(RunError::WrongShape),
        },
{
    if len == 0 {
        return Ok(None);
    }
    let text = match str_from_utf8(out) {
        Some(s) => s,
        None => {
            return Err(RunError::NotUtf8);
        },
    };
    match Best::decode(text) {
        Some(b) => Ok(Some(b)),
        None => Err(RunError::WrongShape),
    }
}

} // verus!
