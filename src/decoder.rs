//! The line decoder: one left-to-right pass over the whitespace-separated
//! tokens of a line, carrying which section's value is awaited next.
use vstd::prelude::*;
use crate::number::{float_text, is_float_text, parse_u32, parse_u8, u32_of, u8_of};
use crate::telemetry::{
    empty_view, CpuCore, Engine, EngineView, Ram, Swap, Telemetry, TelemetryView, Thermal,
    ThermalView,
};
use crate::text::{
    chars_of, copy_range, ends_with, ends_with_exec, find, find_exec, is_space,
    last_word, lemma_find_bounds, lemma_word_len_exact, occurs_at_exec, remove_char,
    remove_char_exec, remove_mb, remove_mb_exec, space_char, substring_without, tokens, trailing_word, trim_brackets,
    trim_end_brackets, trim_start_brackets,
};

verus! {

/// Which section's value the next token is read as.
#[derive(Clone, Copy, Debug, PartialEq, Eq)]
pub enum Awaiting {
    Nothing,
    Ram,
    Swap,
    Cpu,
}

pub open spec fn ram_word() -> Seq<char> {
    seq!['R', 'A', 'M']
}

pub open spec fn swap_word() -> Seq<char> {
    seq!['S', 'W', 'A', 'P']
}

pub open spec fn cpu_word() -> Seq<char> {
    seq!['C', 'P', 'U']
}

/// The suffix that marks an engine's label token.
pub open spec fn freq_suffix() -> Seq<char> {
    seq!['_', 'F', 'R', 'E', 'Q']
}

/// The name every engine of `line` is given: the last token of what precedes
/// the first `_FREQ` of the line (empty when nothing does).
pub open spec fn engine_label(line: Seq<char>) -> Seq<char> {
    match find(line, freq_suffix()) {
        Some(k) => last_word(line.take(k)),
        None => seq![],
    }
}

/// The engine entry a `%` token gives, if its load reads as a `u8` once
/// every `%` is taken out.
pub open spec fn engine_reading(name: Seq<char>, t: Seq<char>) -> Seq<EngineView> {
    match u8_of(remove_char(t, '%')) {
        Some(load) => seq![EngineView { name, load }],
        None => seq![],
    }
}

/// The thermal entry a token with an `@` gives: the name before the first
/// `@`, and the text after it without any `C`, if that text reads as a float.
pub open spec fn thermal_reading(t: Seq<char>) -> Seq<ThermalView> {
    match find(t, seq!['@']) {
        Some(k) => {
            let value = remove_char(t.skip(k + 1), 'C');
            if is_float_text(value) {
                seq![ThermalView { name: t.take(k), temp_c: value }]
            } else {
                seq![]
            }
        },
        None => seq![],
    }
}

/// A `used/totalMB` value: `used` before the first `/`, `total` after it
/// with every `MB` taken out, both read as `u32`.
pub open spec fn mem_pair(t: Seq<char>) -> Option<(u32, u32)> {
    match find(t, seq!['/']) {
        Some(k) => match (u32_of(t.take(k)), u32_of(remove_mb(t.skip(k + 1)))) {
            (Some(used), Some(total)) => Some((used, total)),
            _ => None,
        },
        None => None,
    }
}

/// One `load%@freq` entry of a CPU list, if both numbers read.
pub open spec fn core_reading(p: Seq<char>) -> Seq<CpuCore> {
    match find(p, seq!['%', '@']) {
        Some(k) => match (u8_of(p.take(k)), u32_of(p.skip(k + 2))) {
            (Some(load), Some(freq_mhz)) => seq![CpuCore { load, freq_mhz }],
            _ => seq![],
        },
        None => seq![],
    }
}

/// The cores of a comma-separated list, in order, skipping entries that do not read.
pub open spec fn core_list(s: Seq<char>) -> Seq<CpuCore>
    decreases s.len(),
{
    match find(s, seq![',']) {
        Some(k) => {
            proof {
                lemma_find_bounds(s, seq![',']);
            }
            core_reading(s.take(k)) + core_list(s.skip(k + 1))
        },
        None => core_reading(s),
    }
}

/// What one token does to the awaited section and to the snapshot. The rules
/// are tried in this order: section words, `_FREQ` labels, engine loads,
/// thermal readings, then the value of the awaited section. A CPU list holds
/// `@` in each entry, so while a CPU list is awaited a token with `@` is read
/// as that list rather than as a thermal reading.
pub open spec fn step(line: Seq<char>, st: Awaiting, m: TelemetryView, t: Seq<char>) -> (
    Awaiting,
    TelemetryView,
) {
    if t == ram_word() {
        (Awaiting::Ram, m)
    } else if t == swap_word() {
        (Awaiting::Swap, m)
    } else if t == cpu_word() {
        (Awaiting::Cpu, m)
    } else if ends_with(t, freq_suffix()) {
        (st, m)
    } else if t.len() > 0 && t.last() == '%' && find(line, freq_suffix()) is Some {
        (
            st,
            TelemetryView {
                engines: m.engines + engine_reading(engine_label(line), t),
                ..m
            },
        )
    } else if find(t, seq!['@']) is Some && st != Awaiting::Cpu {
        (st, TelemetryView { thermals: m.thermals + thermal_reading(t), ..m })
    } else {
        match st {
            Awaiting::Ram => (
                Awaiting::Nothing,
                TelemetryView {
                    ram: match mem_pair(t) {
                        Some(p) => Some(Ram { used_mb: p.0, total_mb: p.1 }),
                        None => m.ram,
                    },
                    ..m
                },
            ),
            Awaiting::Swap => (
                Awaiting::Nothing,
                TelemetryView {
                    swap: match mem_pair(t) {
                        Some(p) => Some(Swap { used_mb: p.0, total_mb: p.1 }),
                        None => m.swap,
                    },
                    ..m
                },
            ),
            Awaiting::Cpu => (
                Awaiting::Nothing,
                TelemetryView { cpu: m.cpu + core_list(trim_brackets(t)), ..m },
            ),
            Awaiting::Nothing => (Awaiting::Nothing, m),
        }
    }
}

/// The tokens `toks` taken in order from section state `st` and snapshot `m`.
pub open spec fn run(line: Seq<char>, toks: Seq<Seq<char>>, st: Awaiting, m: TelemetryView) -> (
    Awaiting,
    TelemetryView,
)
    decreases toks.len(),
{
    if toks.len() == 0 {
        (st, m)
    } else {
        let (st2, m2) = step(line, st, m, toks[0]);
        run(line, toks.drop_first(), st2, m2)
    }
}

/// The snapshot that `line` decodes to.
pub open spec fn decoded(line: Seq<char>) -> TelemetryView {
    run(line, tokens(line), Awaiting::Nothing, empty_view()).1
}

/// Whether `t` is exactly the word `w`.
fn is_word(t: &[char], w: &[char]) -> (r: bool)
    ensures
        r == (t@ == w@),
{
    if t.len() != w.len() {
        return false;
    }
    let r = occurs_at_exec(t, w, 0);
    assert(t@.subrange(0, w@.len() as int) =~= t@);
    r
}

fn trim_brackets_exec(s: &[char]) -> (r: Vec<char>)
    ensures
        r@ == trim_brackets(s@),
{
    let mut lo: usize = 0;
    assert(s@.skip(0) =~= s@);
    while lo < s.len() && (s[lo] == '[' || s[lo] == ']')
        invariant
            lo <= s@.len(),
            trim_start_brackets(s@.skip(lo as int)) == trim_start_brackets(s@),
        decreases s@.len() - lo,
    {
        assert(s@.skip(lo as int).skip(1) =~= s@.skip(lo + 1));
        lo = lo + 1;
    }
    let mut hi: usize = s.len();
    assert(s@.subrange(lo as int, hi as int) =~= s@.skip(lo as int));
    while hi > lo && (s[hi - 1] == '[' || s[hi - 1] == ']')
        invariant
            lo <= hi <= s@.len(),
            trim_start_brackets(s@) == s@.skip(lo as int),
            trim_end_brackets(s@.subrange(lo as int, hi as int)) == trim_brackets(s@),
        decreases hi,
    {
        assert(s@.subrange(lo as int, hi as int).drop_last() =~= s@.subrange(lo as int, hi - 1));
        hi = hi - 1;
    }
    copy_range(s, lo, hi)
}

fn mem_pair_exec(t: &[char]) -> (r: Option<(u32, u32)>)
    ensures
        r == mem_pair(t@),
{
    let slash: [char; 1] = ['/'];
    let p: &[char] = &slash;
    assert(p@ =~= seq!['/']);
    match find_exec(t, p) {
        Some(k) => {
            let used = copy_range(t, 0, k);
            let total = copy_range(t, k + 1, t.len());
            assert(used@ =~= t@.take(k as int));
            assert(total@ =~= t@.skip(k + 1));
            let total = remove_mb_exec(total.as_slice());
            match (parse_u32(used.as_slice()), parse_u32(total.as_slice())) {
                (Some(u), Some(v)) => Some((u, v)),
                _ => None,
            }
        },
        None => None,
    }
}

fn core_reading_exec(p: &[char]) -> (r: Option<CpuCore>)
    ensures
        match r {
            Some(c) => core_reading(p@) == seq![c],
            None => core_reading(p@) == Seq::<CpuCore>::empty(),
        },
{
    let sep: [char; 2] = ['%', '@'];
    let sp: &[char] = &sep;
    assert(sp@ =~= seq!['%', '@']);
    match find_exec(p, sp) {
        Some(k) => {
            let load = copy_range(p, 0, k);
            let freq = copy_range(p, k + 2, p.len());
            assert(load@ =~= p@.take(k as int));
            assert(freq@ =~= p@.skip(k + 2));
            match (parse_u8(load.as_slice()), parse_u32(freq.as_slice())) {
                (Some(l), Some(f)) => Some(CpuCore { load: l, freq_mhz: f }),
                _ => None,
            }
        },
        None => None,
    }
}

/// Appends the cores of the comma-separated list `s` to `out`.
fn read_cores(s: &[char], out: &mut Vec<CpuCore>)
    ensures
        final(out)@ == old(out)@ + core_list(s@),
{
    let comma: [char; 1] = [','];
    let cp: &[char] = &comma;
    assert(cp@ =~= seq![',']);
    let mut rest = copy_range(s, 0, s.len());
    assert(rest@ =~= s@);
    loop
        invariant
            cp@ == seq![','],
            out@ + core_list(rest@) == old(out)@ + core_list(s@),
        decreases rest@.len(),
    {
        match find_exec(rest.as_slice(), cp) {
            Some(k) => {
                let piece = copy_range(rest.as_slice(), 0, k);
                let next = copy_range(rest.as_slice(), k + 1, rest.len());
                assert(piece@ =~= rest@.take(k as int));
                assert(next@ =~= rest@.skip(k + 1));
                let ghost before = out@;
                match core_reading_exec(piece.as_slice()) {
                    Some(c) => out.push(c),
                    None => {},
                }
                assert(out@ + core_list(next@) =~= before + core_list(rest@));
                rest = next;
            },
            None => {
                let ghost before = out@;
                match core_reading_exec(rest.as_slice()) {
                    Some(c) => out.push(c),
                    None => {},
                }
                assert(out@ =~= before + core_list(rest@));
                return ;
            },
        }
    }
}

/// The name every engine of the line is given, computed once per line:
/// `Some` exactly when the line holds `_FREQ`.
fn engine_label_exec(line: &str, s: &[char]) -> (r: Option<String>)
    requires
        s@ == line@,
    ensures
        match r {
            Some(name) => find(line@, freq_suffix()) is Some && name@ == engine_label(line@),
            None => find(line@, freq_suffix()) is None,
        },
{
    let suffix: [char; 5] = ['_', 'F', 'R', 'E', 'Q'];
    let sp: &[char] = &suffix;
    assert(sp@ =~= freq_suffix());
    let k = match find_exec(s, sp) {
        Some(k) => k,
        None => {
            return None;
        },
    };
    let ghost head = s@.take(k as int);
    let mut e = k;
    while e > 0 && space_char(s[e - 1])
        invariant
            e <= k <= s@.len(),
            head == s@.take(k as int),
            last_word(s@.take(e as int)) == last_word(head),
        decreases e,
    {
        assert(s@.take(e as int).drop_last() =~= s@.take(e - 1));
        e = e - 1;
    }
    let mut b = e;
    assert(s@.subrange(b as int, e as int) =~= seq![]);
    while b > 0 && !space_char(s[b - 1])
        invariant
            b <= e <= k <= s@.len(),
            trailing_word(s@.take(e as int)) == trailing_word(s@.take(b as int)) + s@.subrange(
                b as int,
                e as int,
            ),
        decreases b,
    {
        assert(s@.take(b as int).drop_last() =~= s@.take(b - 1));
        assert(s@.subrange(b - 1, e as int) =~= seq![s@[b - 1]] + s@.subrange(b as int, e as int));
        b = b - 1;
    }
    assert(trailing_word(s@.take(b as int)) =~= seq![]);
    assert(seq![] + s@.subrange(b as int, e as int) =~= s@.subrange(b as int, e as int));
    let name = line.substring_char(b, e);
    Some(String::from_str(name))
}

/// The label relation that `engine_label_exec` establishes.
pub open spec fn label_of_line(line: Seq<char>, label: Option<String>) -> bool {
    match label {
        Some(name) => find(line, freq_suffix()) is Some && name@ == engine_label(line),
        None => find(line, freq_suffix()) is None,
    }
}

/// Applies the token `line[at..end]` to the awaited section `st` and to `tel`.
fn apply_token(
    line: &str,
    s: &[char],
    label: &Option<String>,
    st: Awaiting,
    tel: &mut Telemetry,
    at: usize,
    end: usize,
) -> (next: Awaiting)
    requires
        s@ == line@,
        at <= end <= s@.len(),
        label_of_line(line@, *label),
    ensures
        (next, final(tel)@) == step(line@, st, old(tel)@, s@.subrange(at as int, end as int)),
{
    let tok_v = copy_range(s, at, end);
    let tok = tok_v.as_slice();
    let ghost t = tok@;
    let ram: [char; 3] = ['R', 'A', 'M'];
    let swap: [char; 4] = ['S', 'W', 'A', 'P'];
    let cpu: [char; 3] = ['C', 'P', 'U'];
    let suffix: [char; 5] = ['_', 'F', 'R', 'E', 'Q'];
    let at_sign: [char; 1] = ['@'];
    let ram_s: &[char] = &ram;
    let swap_s: &[char] = &swap;
    let cpu_s: &[char] = &cpu;
    let suffix_s: &[char] = &suffix;
    let at_s: &[char] = &at_sign;
    assert(ram_s@ =~= ram_word());
    assert(swap_s@ =~= swap_word());
    assert(cpu_s@ =~= cpu_word());
    assert(suffix_s@ =~= freq_suffix());
    assert(at_s@ =~= seq!['@']);
    if is_word(tok, ram_s) {
        return Awaiting::Ram;
    }
    if is_word(tok, swap_s) {
        return Awaiting::Swap;
    }
    if is_word(tok, cpu_s) {
        return Awaiting::Cpu;
    }
    if ends_with_exec(tok, suffix_s) {
        return st;
    }
    if tok.len() > 0 && tok[tok.len() - 1] == '%' {
        match label {
            Some(name) => {
                let digits = remove_char_exec(tok, '%');
                let ghost before = tel@;
                match parse_u8(digits.as_slice()) {
                    Some(load) => {
                        tel.engines.push(Engine { name: name.clone(), load });
                        assert(tel@.engines =~= before.engines + engine_reading(
                            engine_label(line@),
                            t,
                        ));
                    },
                    None => {
                        assert(before.engines =~= before.engines + engine_reading(
                            engine_label(line@),
                            t,
                        ));
                    },
                }
                return st;
            },
            None => {},
        }
    }
    let awaiting_cpu = match st {
        Awaiting::Cpu => true,
        _ => false,
    };
    match find_exec(tok, at_s) {
        Some(k) if !awaiting_cpu => {
            let value = substring_without(line, s, at + k + 1, end, 'C');
            assert(line@.subrange(at + k + 1, end as int) =~= t.skip(k + 1));
            let chars = chars_of(value.as_str());
            let ghost before = tel@;
            if float_text(chars.as_slice()) {
                let name = line.substring_char(at, at + k);
                assert(name@ =~= t.take(k as int));
                tel.thermals.push(Thermal { name: String::from_str(name), temp_c: value });
                assert(tel@.thermals =~= before.thermals + thermal_reading(t));
            } else {
                assert(before.thermals =~= before.thermals + thermal_reading(t));
            }
            return st;
        },
        _ => {},
    }
    match st {
        Awaiting::Ram => {
            match mem_pair_exec(tok) {
                Some(p) => {
                    tel.ram = Some(Ram { used_mb: p.0, total_mb: p.1 });
                },
                None => {},
            }
            Awaiting::Nothing
        },
        Awaiting::Swap => {
            match mem_pair_exec(tok) {
                Some(p) => {
                    tel.swap = Some(Swap { used_mb: p.0, total_mb: p.1 });
                },
                None => {},
            }
            Awaiting::Nothing
        },
        Awaiting::Cpu => {
            let list = trim_brackets_exec(tok);
            read_cores(list.as_slice(), &mut tel.cpu);
            Awaiting::Nothing
        },
        Awaiting::Nothing => Awaiting::Nothing,
    }
}

/// Decodes one telemetry line. Never fails: fields that do not read are left out.
pub fn decode(line: &str) -> (t: Telemetry)
    ensures
        t@ == decoded(line@),
{
    let cs = chars_of(line);
    let s = cs.as_slice();
    let label = engine_label_exec(line, s);
    let mut tel = Telemetry::new();
    let mut st = Awaiting::Nothing;
    let mut i: usize = 0;
    assert(line@.skip(0) =~= line@);
    while i < s.len()
        invariant
            s@ == line@,
            i <= s@.len(),
            label_of_line(line@, label),
            run(line@, tokens(line@.skip(i as int)), st, tel@) == run(
                line@,
                tokens(line@),
                Awaiting::Nothing,
                empty_view(),
            ),
        decreases s@.len() - i,
    {
        let ghost rest = line@.skip(i as int);
        assert(rest[0] == s@[i as int]);
        if space_char(s[i]) {
            assert(rest.skip(1) =~= line@.skip(i + 1));
            assert(tokens(rest) == tokens(line@.skip(i + 1)));
            i = i + 1;
        } else {
            let mut j = i + 1;
            while j < s.len() && !space_char(s[j])
                invariant
                    s@ == line@,
                    i < j <= s@.len(),
                    forall|k: int| i <= k < j ==> !is_space(#[trigger] s@[k]),
                decreases s@.len() - j,
            {
                j = j + 1;
            }
            proof {
                assert(forall|k: int| 0 <= k < j - i ==> rest[k] == s@[i + k]);
                lemma_word_len_exact(rest, j - i);
                assert(rest.take(j - i) =~= line@.subrange(i as int, j as int));
                assert(rest.skip(j - i) =~= line@.skip(j as int));
                assert(tokens(rest) == seq![line@.subrange(i as int, j as int)] + tokens(
                    line@.skip(j as int),
                ));
                assert(tokens(rest).drop_first() =~= tokens(line@.skip(j as int)));
            }
            st = apply_token(line, s, &label, st, &mut tel, i, j);
            i = j;
        }
    }
    assert(line@.skip(i as int) =~= seq![]);
    tel
}

} // verus!
