//! Decisions of the build step: the arguments of the `cargo rustc` run that
//! emits unoptimized textual IR, whether its diagnostics are colored, which
//! diagnostic lines are noise, and which output file holds the IR.

use vstd::prelude::*;
use crate::table::SortOrder;
use vstd::slice::slice_to_vec;
use vstd::utf8::encode_utf8;
use crate::text::chars_of;

verus! {

/// When the build's own diagnostics are colored.
#[derive(Clone, Copy, Debug, PartialEq, Eq, Structural)]
pub enum Coloring {
    Auto,
    Always,
    Never,
}

/// The options of one run: those of the report, and those passed on to the
/// build. Paths and the raw trailing arguments are held as the bytes of
/// OS strings, so that they pass on unchanged.
pub struct LlvmLines {
    pub sort: SortOrder,
    pub filter: Option<String>,
    pub files: Vec<Vec<u8>>,
    pub verbose: bool,
    pub quiet: bool,
    pub color: Option<Coloring>,
    pub config: Vec<String>,
    pub nightly_only_flags: Vec<String>,
    pub help: bool,
    pub version: bool,
    pub package: Option<String>,
    pub lib: bool,
    pub bin: Option<String>,
    pub example: Option<String>,
    pub test: Option<String>,
    pub bench: Option<String>,
    pub features: Option<String>,
    pub all_features: bool,
    pub no_default_features: bool,
    pub jobs: Option<usize>,
    pub release: bool,
    pub profile: Option<String>,
    pub target: Option<String>,
    pub target_dir: Option<Vec<u8>>,
    pub manifest_path: Option<Vec<u8>>,
    pub frozen: bool,
    pub locked: bool,
    pub offline: bool,
    pub rest: Vec<Vec<u8>>,
}

/// Whether the build is asked for colored diagnostics: as requested, or,
/// for `Auto` and no request, when `NO_COLOR` is unset and standard error
/// is a terminal.
pub open spec fn colors_on(color: Option<Coloring>, no_color_set: bool, stderr_is_terminal: bool) -> bool {
    match color {
        Some(Coloring::Always) => true,
        Some(Coloring::Never) => false,
        _ => !no_color_set && stderr_is_terminal,
    }
}

pub fn use_color(color: Option<Coloring>, no_color_set: bool, stderr_is_terminal: bool) -> (r: bool)
    ensures
        r == colors_on(color, no_color_set, stderr_is_terminal),
{
    match color {
        Some(Coloring::Always) => true,
        Some(Coloring::Never) => false,
        _ => !no_color_set && stderr_is_terminal,
    }
}

/// The decimal digit `d`.
pub open spec fn digit_char(d: nat) -> char {
    seq!['0', '1', '2', '3', '4', '5', '6', '7', '8', '9'][d as int]
}

/// `n` written in decimal.
pub open spec fn decimal_text(n: nat) -> Seq<char>
    decreases n,
{
    if n < 10 {
        seq![digit_char(n)]
    } else {
        decimal_text(n / 10).push(digit_char(n % 10))
    }
}

/// The decimal digit `d` as a one-character string.
fn digit_str(d: usize) -> (r: &'static str)
    requires
        d < 10,
    ensures
        r@ == seq![digit_char(d as nat)],
{
    proof {
        reveal_strlit("0");
        reveal_strlit("1");
        reveal_strlit("2");
        reveal_strlit("3");
        reveal_strlit("4");
        reveal_strlit("5");
        reveal_strlit("6");
        reveal_strlit("7");
        reveal_strlit("8");
        reveal_strlit("9");
    }
    if d == 0 {
        "0"
    } else if d == 1 {
        "1"
    } else if d == 2 {
        "2"
    } else if d == 3 {
        "3"
    } else if d == 4 {
        "4"
    } else if d == 5 {
        "5"
    } else if d == 6 {
        "6"
    } else if d == 7 {
        "7"
    } else if d == 8 {
        "8"
    } else {
        "9"
    }
}

/// `n` written in decimal.
pub fn usize_text(n: usize) -> (r: String)
    ensures
        r@ == decimal_text(n as nat),
    decreases n,
{
    if n < 10 {
        String::from_str(digit_str(n))
    } else {
        let mut s = usize_text(n / 10);
        s.append(digit_str(n % 10));
        assert(s@ =~= decimal_text(n as nat));
        s
    }
}

/// The UTF-8 bytes of `s`.
pub open spec fn text(s: Seq<char>) -> Seq<u8> {
    encode_utf8(s)
}

/// `[name]` when `on`, else nothing.
pub open spec fn switch(on: bool, name: Seq<char>) -> Seq<Seq<u8>> {
    if on {
        seq![text(name)]
    } else {
        seq![]
    }
}

/// `[name, value]` when there is a value, else nothing.
pub open spec fn option(name: Seq<char>, value: Option<Seq<u8>>) -> Seq<Seq<u8>> {
    match value {
        Some(v) => seq![text(name), v],
        None => seq![],
    }
}

/// `[name, v]` for each of `values`, in order.
pub open spec fn repeated(name: Seq<char>, values: Seq<Seq<u8>>) -> Seq<Seq<u8>>
    decreases values.len(),
{
    if values.len() == 0 {
        seq![]
    } else {
        repeated(name, values.drop_last()) + seq![text(name), values.last()]
    }
}

/// The UTF-8 bytes of each string.
pub open spec fn texts(v: Seq<String>) -> Seq<Seq<u8>> {
    v.map_values(|s: String| text(s@))
}

/// The bytes of each vector.
pub open spec fn byte_strings(v: Seq<Vec<u8>>) -> Seq<Seq<u8>> {
    v.map_values(|b: Vec<u8>| b@)
}

pub open spec fn opt_text(o: Option<String>) -> Option<Seq<u8>> {
    match o {
        Some(s) => Some(text(s@)),
        None => None,
    }
}

pub open spec fn opt_bytes(o: Option<Vec<u8>>) -> Option<Seq<u8>> {
    match o {
        Some(b) => Some(b@),
        None => None,
    }
}

/// `-Z` before each flag.
pub open spec fn nightly(flags: Seq<String>) -> Seq<Seq<u8>>
    decreases flags.len(),
{
    if flags.len() == 0 {
        seq![]
    } else {
        nightly(flags.drop_last()).push(text("-Z"@ + flags.last()@))
    }
}

/// `before`, followed by the arguments that select what is built and how.
pub open spec fn with_selection(before: Seq<Seq<u8>>, opts: &LlvmLines) -> Seq<Seq<u8>> {
    before
        + option("--package"@, opt_text(opts.package))
        + switch(opts.lib, "--lib"@)
        + option("--bin"@, opt_text(opts.bin))
        + option("--example"@, opt_text(opts.example))
        + option("--test"@, opt_text(opts.test))
        + option("--bench"@, opt_text(opts.bench))
        + option("--features"@, opt_text(opts.features))
        + switch(opts.all_features, "--all-features"@)
        + switch(opts.no_default_features, "--no-default-features"@)
        + option("--jobs"@, match opts.jobs { Some(j) => Some(text(decimal_text(j as nat))), None => None })
        + switch(opts.release, "--release"@)
        + option("--profile"@, opt_text(opts.profile))
        + option("--target"@, opt_text(opts.target))
        + option("--target-dir"@, opt_bytes(opts.target_dir))
        + option("--manifest-path"@, opt_bytes(opts.manifest_path))
        + switch(opts.frozen, "--frozen"@)
        + switch(opts.locked, "--locked"@)
        + switch(opts.offline, "--offline"@)
}

/// The compiler flags that emit unoptimized textual IR into `outfile`.
pub open spec fn emit_args(outfile: Seq<u8>) -> Seq<Seq<u8>> {
    seq![
        text("--"@),
        text("--emit=llvm-ir"@),
        text("-Cno-prepopulate-passes"@),
        text("-Cpasses=name-anon-globals"@),
        text("-o"@),
        outfile,
    ]
}

/// The arguments of `cargo` that build the crate with `opts` and write its
/// unoptimized IR to `outfile`, each as the bytes of an OS string.
pub open spec fn cargo_args(opts: &LlvmLines, outfile: Seq<u8>, color: bool) -> Seq<Seq<u8>> {
    let head = seq![text("rustc"@)]
        + switch(opts.verbose, "--verbose"@)
        + switch(opts.quiet, "--quiet"@)
        + seq![text("--color"@), text(if color { "always"@ } else { "never"@ })]
        + repeated("--config"@, texts(opts.config@))
        + nightly(opts.nightly_only_flags@);
    let selected = with_selection(head, opts);
    selected + emit_args(outfile) + byte_strings(opts.rest@)
}

fn push_bytes(args: &mut Vec<Vec<u8>>, b: &[u8])
    ensures
        byte_strings(final(args)@) == byte_strings(old(args)@).push(b@),
        byte_strings(final(args)@) == byte_strings(old(args)@) + seq![b@],
{
    args.push(slice_to_vec(b));
    assert(byte_strings(args@) =~= byte_strings(old(args)@).push(b@));
    assert(byte_strings(args@) =~= byte_strings(old(args)@) + seq![b@]);
}

fn push_str(args: &mut Vec<Vec<u8>>, s: &str)
    ensures
        byte_strings(final(args)@) == byte_strings(old(args)@).push(text(s@)),
        byte_strings(final(args)@) == byte_strings(old(args)@) + seq![text(s@)],
{
    push_bytes(args, s.as_bytes());
}

fn push_switch(args: &mut Vec<Vec<u8>>, on: bool, name: &str)
    ensures
        byte_strings(final(args)@) == byte_strings(old(args)@) + switch(on, name@),
{
    let ghost before = byte_strings(args@);
    if on {
        push_str(args, name);
    }
    assert(byte_strings(args@) =~= before + switch(on, name@));
}

fn push_option(args: &mut Vec<Vec<u8>>, name: &str, value: &Option<String>)
    ensures
        byte_strings(final(args)@) == byte_strings(old(args)@) + option(name@, opt_text(*value)),
{
    let ghost before = byte_strings(args@);
    match value {
        Some(v) => {
            push_str(args, name);
            push_str(args, v.as_str());
        },
        None => {},
    }
    assert(byte_strings(args@) =~= before + option(name@, opt_text(*value)));
}

fn push_path(args: &mut Vec<Vec<u8>>, name: &str, value: &Option<Vec<u8>>)
    ensures
        byte_strings(final(args)@) == byte_strings(old(args)@) + option(name@, opt_bytes(*value)),
{
    let ghost before = byte_strings(args@);
    match value {
        Some(v) => {
            push_str(args, name);
            push_bytes(args, v.as_slice());
        },
        None => {},
    }
    assert(byte_strings(args@) =~= before + option(name@, opt_bytes(*value)));
}

fn push_selection(args: &mut Vec<Vec<u8>>, opts: &LlvmLines)
    ensures
        byte_strings(final(args)@) == with_selection(byte_strings(old(args)@), opts),
{
    push_option(args, "--package", &opts.package);
    push_switch(args, opts.lib, "--lib");
    push_option(args, "--bin", &opts.bin);
    push_option(args, "--example", &opts.example);
    push_option(args, "--test", &opts.test);
    push_option(args, "--bench", &opts.bench);
    push_option(args, "--features", &opts.features);
    push_switch(args, opts.all_features, "--all-features");
    push_switch(args, opts.no_default_features, "--no-default-features");
    let jobs = match opts.jobs {
        Some(j) => Some(usize_text(j)),
        None => None,
    };
    push_option(args, "--jobs", &jobs);
    push_switch(args, opts.release, "--release");
    push_option(args, "--profile", &opts.profile);
    push_option(args, "--target", &opts.target);
    push_path(args, "--target-dir", &opts.target_dir);
    push_path(args, "--manifest-path", &opts.manifest_path);
    push_switch(args, opts.frozen, "--frozen");
    push_switch(args, opts.locked, "--locked");
    push_switch(args, opts.offline, "--offline");
}

fn push_emit(args: &mut Vec<Vec<u8>>, outfile: &[u8])
    ensures
        byte_strings(final(args)@) == byte_strings(old(args)@) + emit_args(outfile@),
{
    let ghost v0 = byte_strings(args@);
    push_str(args, "--");
    push_str(args, "--emit=llvm-ir");
    push_str(args, "-Cno-prepopulate-passes");
    push_str(args, "-Cpasses=name-anon-globals");
    push_str(args, "-o");
    push_bytes(args, outfile);
    assert(byte_strings(args@) =~= v0 + emit_args(outfile@));
}

/// The arguments of `cargo` for the build that emits the IR of the crate
/// selected by `opts` into `outfile`; `color` asks for colored diagnostics.
/// Each argument is the bytes of an OS string: paths and the raw trailing
/// arguments are passed on byte for byte.
pub fn cargo_arguments(opts: &LlvmLines, outfile: &[u8], color: bool) -> (r: Vec<Vec<u8>>)
    ensures
        byte_strings(r@) == cargo_args(opts, outfile@, color),
{
    let mut args: Vec<Vec<u8>> = Vec::new();
    push_str(&mut args, "rustc");
    assert(byte_strings(args@) =~= seq![text("rustc"@)]);
    push_switch(&mut args, opts.verbose, "--verbose");
    push_switch(&mut args, opts.quiet, "--quiet");
    let ghost v1 = byte_strings(args@);
    push_str(&mut args, "--color");
    if color {
        push_str(&mut args, "always");
    } else {
        push_str(&mut args, "never");
    }
    assert(byte_strings(args@) =~= v1 + seq![text("--color"@), text(if color { "always"@ } else { "never"@ })]);
    let ghost before_config = byte_strings(args@);
    let mut i: usize = 0;
    assert(repeated("--config"@, texts(opts.config@.subrange(0, 0))) =~= Seq::<Seq<u8>>::empty());
    assert(before_config + Seq::<Seq<u8>>::empty() =~= before_config);
    while i < opts.config.len()
        invariant
            i <= opts.config@.len(),
            byte_strings(args@) == before_config + repeated("--config"@, texts(opts.config@.subrange(0, i as int))),
        decreases opts.config@.len() - i,
    {
        let ghost before = byte_strings(args@);
        push_str(&mut args, "--config");
        push_str(&mut args, opts.config[i].as_str());
        assert(texts(opts.config@.subrange(0, i + 1)).drop_last() =~= texts(opts.config@.subrange(0, i as int)));
        assert(byte_strings(args@) =~= before + seq![text("--config"@), text(opts.config@[i as int]@)]);
        i = i + 1;
    }
    assert(opts.config@.subrange(0, i as int) =~= opts.config@);
    let ghost before_z = byte_strings(args@);
    let mut i: usize = 0;
    assert(nightly(opts.nightly_only_flags@.subrange(0, 0)) =~= Seq::<Seq<u8>>::empty());
    assert(before_z + Seq::<Seq<u8>>::empty() =~= before_z);
    while i < opts.nightly_only_flags.len()
        invariant
            i <= opts.nightly_only_flags@.len(),
            byte_strings(args@) == before_z + nightly(opts.nightly_only_flags@.subrange(0, i as int)),
        decreases opts.nightly_only_flags@.len() - i,
    {
        let mut flag = String::from_str("-Z");
        flag.append(opts.nightly_only_flags[i].as_str());
        push_str(&mut args, flag.as_str());
        assert(opts.nightly_only_flags@.subrange(0, i + 1).drop_last() =~= opts.nightly_only_flags@.subrange(0, i as int));
        i = i + 1;
    }
    assert(opts.nightly_only_flags@.subrange(0, i as int) =~= opts.nightly_only_flags@);
    push_selection(&mut args, opts);
    push_emit(&mut args, outfile);
    let ghost before_rest = byte_strings(args@);
    let mut i: usize = 0;
    assert(before_rest + byte_strings(opts.rest@.subrange(0, 0)) =~= before_rest);
    while i < opts.rest.len()
        invariant
            i <= opts.rest@.len(),
            byte_strings(args@) == before_rest + byte_strings(opts.rest@.subrange(0, i as int)),
        decreases opts.rest@.len() - i,
    {
        push_bytes(&mut args, opts.rest[i].as_slice());
        assert(byte_strings(opts.rest@.subrange(0, i + 1)) =~= byte_strings(opts.rest@.subrange(0, i as int)).push(opts.rest@[i as int]@));
        i = i + 1;
    }
    assert(opts.rest@.subrange(0, i as int) =~= opts.rest@);
    args
}

/// The characters with the Unicode `White_Space` property.
pub open spec fn is_white_space(c: char) -> bool {
    let u = c as u32;
    (0x09 <= u && u <= 0x0d) || u == 0x20 || u == 0x85 || u == 0xa0 || u == 0x1680 || (0x2000 <= u
        && u <= 0x200a) || u == 0x2028 || u == 0x2029 || u == 0x202f || u == 0x205f || u == 0x3000
}

/// Whether `c` has the Unicode `White_Space` property.
pub fn is_whitespace(c: char) -> (r: bool)
    ensures
        r == is_white_space(c),
{
    let u = c as u32;
    (0x09 <= u && u <= 0x0d) || u == 0x20 || u == 0x85 || u == 0xa0 || u == 0x1680 || (0x2000 <= u
        && u <= 0x200a) || u == 0x2028 || u == 0x2029 || u == 0x202f || u == 0x205f || u == 0x3000
}

/// `pat` occurs in `s` starting at index `i`.
pub open spec fn occurs_at(s: Seq<char>, pat: Seq<char>, i: int) -> bool {
    0 <= i && i + pat.len() <= s.len() && s.subrange(i, i + pat.len()) == pat
}

/// `pat` occurs somewhere in `s`.
pub open spec fn occurs_in(s: Seq<char>, pat: Seq<char>) -> bool {
    exists|i: int| occurs_at(s, pat, i)
}

/// The index of the first character at or after `i` that is not an ASCII
/// digit, or the length of `s`.
pub open spec fn digits_end(s: Seq<char>, i: int) -> int
    decreases s.len() - i,
{
    if i < 0 || i >= s.len() || !('0' <= s[i] && s[i] <= '9') {
        i
    } else {
        digits_end(s, i + 1)
    }
}

/// Messages of the build about the output file name that `-o` fixes.
pub open spec fn noise_fragments() -> Seq<Seq<char>> {
    seq![
        "ignoring specified output filename because multiple outputs were requested"@,
        "ignoring specified output filename for 'link' output because multiple outputs were requested"@,
        "ignoring --out-dir flag due to -o flag"@,
        "due to multiple output types requested, the explicitly specified output file name will be adapted for each output type"@,
        "ignoring -C extra-filename flag due to -o flag"@,
    ]
}

/// At `i` stands `) generated `, one or more ASCII digits, and ` warning`.
pub open spec fn warning_count_at(s: Seq<char>, i: int) -> bool {
    let start = i + ") generated "@.len();
    let end = digits_end(s, start);
    occurs_at(s, ") generated "@, i) && end > start && occurs_at(s, " warning"@, end)
}

/// A diagnostic line that is not worth showing: blank, one of the known
/// messages, or a warning count.
pub open spec fn is_noise(line: Seq<char>) -> bool {
    ||| forall|i: int| 0 <= i < line.len() ==> is_white_space(#[trigger] line[i])
    ||| exists|k: int| 0 <= k < noise_fragments().len() && occurs_in(line, #[trigger] noise_fragments()[k])
    ||| exists|i: int| warning_count_at(line, i)
}

fn occurs_at_exec(s: &Vec<char>, pat: &Vec<char>, i: usize) -> (r: bool)
    ensures
        r == occurs_at(s@, pat@, i as int),
{
    if i > s.len() || pat.len() > s.len() - i {
        return false;
    }
    let n = s.len();
    let mut j: usize = 0;
    while j < pat.len()
        invariant
            n == s@.len(),
            i + pat@.len() <= s@.len(),
            j <= pat@.len(),
            forall|k: int| 0 <= k < j ==> s@[i + k] == pat@[k],
        decreases pat@.len() - j,
    {
        if s[i + j] != pat[j] {
            assert(s@.subrange(i as int, i + pat@.len())[j as int] != pat@[j as int]);
            return false;
        }
        j = j + 1;
    }
    assert(s@.subrange(i as int, i + pat@.len()) =~= pat@);
    true
}

fn occurs_in_exec(s: &Vec<char>, pat: &Vec<char>) -> (r: bool)
    ensures
        r == occurs_in(s@, pat@),
{
    if pat.len() > s.len() {
        return false;
    }
    let last = s.len() - pat.len();
    let mut i: usize = 0;
    loop
        invariant
            last == s@.len() - pat@.len(),
            i <= last,
            forall|k: int| 0 <= k < i ==> !occurs_at(s@, pat@, k),
        ensures
            forall|k: int| 0 <= k <= last ==> !occurs_at(s@, pat@, k),
        decreases last - i,
    {
        if occurs_at_exec(s, pat, i) {
            return true;
        }
        if i == last {
            break;
        }
        i = i + 1;
    }
    assert forall|k: int| !occurs_at(s@, pat@, k) by {
        if 0 <= k <= last {
        }
    }
    false
}

fn is_blank(cs: &Vec<char>) -> (r: bool)
    ensures
        r == forall|i: int| 0 <= i < cs@.len() ==> is_white_space(#[trigger] cs@[i]),
{
    let mut i: usize = 0;
    while i < cs.len()
        invariant
            i <= cs@.len(),
            forall|k: int| 0 <= k < i ==> is_white_space(#[trigger] cs@[k]),
        decreases cs@.len() - i,
    {
        if !is_whitespace(cs[i]) {
            return false;
        }
        i = i + 1;
    }
    true
}

fn has_warning_count(cs: &Vec<char>) -> (r: bool)
    ensures
        r == exists|i: int| warning_count_at(cs@, i),
{
    let generated = chars_of(") generated ");
    let warning = chars_of(" warning");
    let mut i: usize = 0;
    while i < cs.len()
        invariant
            i <= cs@.len(),
            generated@ == ") generated "@,
            warning@ == " warning"@,
            forall|k: int| 0 <= k < i ==> !warning_count_at(cs@, k),
        decreases cs@.len() - i,
    {
        if occurs_at_exec(cs, &generated, i) {
            let start = i + generated.len();
            let mut end = start;
            while end < cs.len() && '0' <= cs[end] && cs[end] <= '9'
                invariant
                    start <= end <= cs@.len(),
                    digits_end(cs@, start as int) == digits_end(cs@, end as int),
                decreases cs@.len() - end,
            {
                end = end + 1;
            }
            if end > start && occurs_at_exec(cs, &warning, end) {
                assert(warning_count_at(cs@, i as int));
                return true;
            }
        }
        i = i + 1;
    }
    assert forall|k: int| !warning_count_at(cs@, k) by {
        if 0 <= k < i {
        }
    }
    false
}

/// Whether a line of the build's diagnostics is noise to drop.
pub fn ignore_cargo_err(line: &str) -> (r: bool)
    ensures
        r == is_noise(line@),
{
    let cs = chars_of(line);
    if is_blank(&cs) {
        return true;
    }
    let f0 = occurs_in_exec(
        &cs,
        &chars_of("ignoring specified output filename because multiple outputs were requested"),
    );
    let f1 = occurs_in_exec(
        &cs,
        &chars_of(
            "ignoring specified output filename for 'link' output because multiple outputs were requested",
        ),
    );
    let f2 = occurs_in_exec(&cs, &chars_of("ignoring --out-dir flag due to -o flag"));
    let f3 = occurs_in_exec(
        &cs,
        &chars_of(
            "due to multiple output types requested, the explicitly specified output file name will be adapted for each output type",
        ),
    );
    let f4 = occurs_in_exec(&cs, &chars_of("ignoring -C extra-filename flag due to -o flag"));
    let known = f0 || f1 || f2 || f3 || f4;
    assert(known == exists|k: int|
        0 <= k < noise_fragments().len() && occurs_in(line@, #[trigger] noise_fragments()[k])) by {
        if known {
            if f0 {
                assert(occurs_in(line@, noise_fragments()[0]));
            } else if f1 {
                assert(occurs_in(line@, noise_fragments()[1]));
            } else if f2 {
                assert(occurs_in(line@, noise_fragments()[2]));
            } else if f3 {
                assert(occurs_in(line@, noise_fragments()[3]));
            } else {
                assert(occurs_in(line@, noise_fragments()[4]));
            }
        } else {
            assert forall|k: int| 0 <= k < noise_fragments().len() implies !occurs_in(
                line@,
                #[trigger] noise_fragments()[k],
            ) by {
                if k == 0 {
                } else if k == 1 {
                } else if k == 2 {
                } else if k == 3 {
                } else {
                }
            }
        }
    }
    if known {
        return true;
    }
    has_warning_count(&cs)
}

/// The file name ends in the extension `.ll` (a name that is only `.ll`
/// has no extension).
pub open spec fn has_ir_extension(name: Seq<char>) -> bool {
    name.len() >= 4 && name.subrange(name.len() - 3, name.len() as int) == ".ll"@
}

/// The first of `names` that has the extension `.ll`, if any.
pub fn select_ir_file(names: &Vec<String>) -> (r: Option<usize>)
    ensures
        match r {
            Some(i) => i < names@.len() && has_ir_extension(names@[i as int]@) && forall|j: int|
                0 <= j < i ==> !has_ir_extension(#[trigger] names@[j]@),
            None => forall|j: int| 0 <= j < names@.len() ==> !has_ir_extension(#[trigger] names@[j]@),
        },
{
    let ext = chars_of(".ll");
    proof {
        reveal_strlit(".ll");
        assert(ext@.len() == 3);
    }
    let mut i: usize = 0;
    while i < names.len()
        invariant
            i <= names@.len(),
            ext@ == ".ll"@,
            ext@.len() == 3,
            forall|j: int| 0 <= j < i ==> !has_ir_extension(#[trigger] names@[j]@),
        decreases names@.len() - i,
    {
        let cs = chars_of(names[i].as_str());
        if cs.len() >= 4 && occurs_at_exec(&cs, &ext, cs.len() - 3) {
            return Some(i);
        }
        i = i + 1;
    }
    None
}

} // verus!
