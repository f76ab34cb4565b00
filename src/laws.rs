//! Properties of the decoder that hold of every line.
use vstd::prelude::*;
use crate::decoder::{
    cpu_word, decoded, engine_label, engine_reading, freq_suffix, mem_pair,
    ram_word, run, step, swap_word, Awaiting,
};
use crate::number::{all_digits, digits_value, is_digit, unsigned_digits};
use crate::telemetry::{empty_view, Ram, Telemetry, TelemetryView};
use crate::text::{ends_with, find, lemma_find_absent, lemma_find_first, remove_mb, tokens};

verus! {

/// Running over `a + b` is running over `a`, then over `b`.
pub proof fn lemma_run_concat(
    line: Seq<char>,
    a: Seq<Seq<char>>,
    b: Seq<Seq<char>>,
    st: Awaiting,
    m: TelemetryView,
)
    ensures
        run(line, a + b, st, m) == run(line, b, run(line, a, st, m).0, run(line, a, st, m).1),
    decreases a.len(),
{
    if a.len() > 0 {
        let (st2, m2) = step(line, st, m, a[0]);
        assert((a + b).drop_first() =~= a.drop_first() + b);
        lemma_run_concat(line, a.drop_first(), b, st2, m2);
    } else {
        assert(a + b =~= b);
    }
}

proof fn lemma_remove_mb_unit(b: Seq<char>)
    requires
        all_digits(b),
    ensures
        remove_mb(b + seq!['M', 'B']) == b,
    decreases b.len(),
{
    let x = b + seq!['M', 'B'];
    if b.len() == 0 {
        assert(x.skip(2) =~= seq![]);
        assert(x[0] == 'M' && x[1] == 'B');
        assert(remove_mb(x.skip(2)) =~= seq![]);
    } else {
        assert(x[0] == b[0]);
        assert(is_digit(b[0]));
        assert(all_digits(b.skip(1))) by {
            assert forall|j: int| 0 <= j < b.skip(1).len() implies is_digit(b.skip(1)[j]) by {
                assert(b.skip(1)[j] == b[j + 1]);
            }
        }
        assert(x.skip(1) =~= b.skip(1) + seq!['M', 'B']);
        lemma_remove_mb_unit(b.skip(1));
        assert(seq![b[0]] + b.skip(1) =~= b);
    }
}

/// Running from any state but `Ram` over tokens none of which is `RAM`
/// leaves the memory reading as it was and never awaits a memory value.
pub proof fn lemma_run_keeps_ram(line: Seq<char>, toks: Seq<Seq<char>>, st: Awaiting, m: TelemetryView)
    requires
        st != Awaiting::Ram,
        forall|k: int| 0 <= k < toks.len() ==> toks[k] != ram_word(),
    ensures
        run(line, toks, st, m).1.ram == m.ram,
        run(line, toks, st, m).0 != Awaiting::Ram,
    decreases toks.len(),
{
    if toks.len() > 0 {
        let (st2, m2) = step(line, st, m, toks[0]);
        assert(toks[0] != ram_word());
        lemma_run_keeps_ram(line, toks.drop_first(), st2, m2);
    }
}

/// The same for the swap reading and `SWAP` tokens.
pub proof fn lemma_run_keeps_swap(line: Seq<char>, toks: Seq<Seq<char>>, st: Awaiting, m: TelemetryView)
    requires
        st != Awaiting::Swap,
        forall|k: int| 0 <= k < toks.len() ==> toks[k] != swap_word(),
    ensures
        run(line, toks, st, m).1.swap == m.swap,
        run(line, toks, st, m).0 != Awaiting::Swap,
    decreases toks.len(),
{
    if toks.len() > 0 {
        let (st2, m2) = step(line, st, m, toks[0]);
        assert(toks[0] != swap_word());
        lemma_run_keeps_swap(line, toks.drop_first(), st2, m2);
    }
}

/// A well-formed `RAM used/totalMB` section is read as that memory reading,
/// whatever stands around it, unless a later `RAM` section takes its place.
pub proof fn ram_section_is_read(
    line: Seq<char>,
    pre: Seq<Seq<char>>,
    used: Seq<char>,
    total: Seq<char>,
    post: Seq<Seq<char>>,
)
    requires
        tokens(line) == pre + seq![ram_word(), used + seq!['/'] + total + seq!['M', 'B']] + post,
        used.len() > 0,
        total.len() > 0,
        all_digits(used),
        all_digits(total),
        digits_value(used) <= u32::MAX,
        digits_value(total) <= u32::MAX,
        forall|k: int| 0 <= k < post.len() ==> post[k] != ram_word(),
    ensures
        decoded(line).ram == Some(
            Ram { used_mb: digits_value(used) as u32, total_mb: digits_value(total) as u32 },
        ),
{
    let v = used + seq!['/'] + total + seq!['M', 'B'];
    let mid = seq![ram_word(), v];
    let k = used.len() as int;
    assert(v[k] == '/');
    assert(forall|j: int| 0 <= j < k ==> v[j] == used[j]);
    assert(forall|j: int| 0 <= j < v.len() ==> v[j] != '@') by {
        assert forall|j: int| 0 <= j < v.len() implies v[j] != '@' by {
            if j < k {
                assert(v[j] == used[j]);
            } else if k < j < k + 1 + total.len() {
                assert(v[j] == total[j - k - 1]);
            }
        }
    }
    lemma_find_first(v, '/', k);
    lemma_find_absent(v, '@');
    assert(v.take(k) =~= used);
    assert(v.skip(k + 1) =~= total + seq!['M', 'B']);
    lemma_remove_mb_unit(total);
    assert(unsigned_digits(used) == used);
    assert(unsigned_digits(total) == total);
    assert(mem_pair(v) == Some((digits_value(used) as u32, digits_value(total) as u32)));
    assert(v != ram_word() && v != swap_word() && v != cpu_word()) by {
        if v.len() == 3 || v.len() == 4 {
            assert(v[k] == '/');
        }
    }
    assert(!ends_with(v, freq_suffix())) by {
        if ends_with(v, freq_suffix()) {
            assert(v.skip(v.len() - 5)[4] == v.last());
        }
    }
    let e = empty_view();
    let before = run(line, pre, Awaiting::Nothing, e);
    lemma_run_concat(line, pre, mid + post, Awaiting::Nothing, e);
    assert(pre + mid + post =~= pre + (mid + post));
    lemma_run_concat(line, mid, post, before.0, before.1);
    let after = run(line, mid, before.0, before.1);
    assert(mid.drop_first().drop_first() =~= seq![]);
    assert(mid.drop_first()[0] == v);
    assert(mid[0] == ram_word());
    assert(v.last() == 'B');
    let (s1, m1) = step(line, before.0, before.1, ram_word());
    assert(s1 == Awaiting::Ram && m1 == before.1);
    let (s2, m2) = step(line, s1, m1, v);
    assert(s2 == Awaiting::Nothing);
    assert(run(line, mid, before.0, before.1) == run(line, mid.drop_first(), s1, m1));
    assert(run(line, mid.drop_first(), s1, m1) == run(line, mid.drop_first().drop_first(), s2, m2));
    assert(after.1.ram == Some(
        Ram { used_mb: digits_value(used) as u32, total_mb: digits_value(total) as u32 },
    ));
    assert(after.0 == Awaiting::Nothing);
    lemma_run_keeps_ram(line, post, after.0, after.1);
}

/// A `SWAP` section whose value holds no `/` gives no swap reading, where it
/// is the only `SWAP` of the line and its value is a plain token: no `@`, not
/// ending in `%` or `_FREQ` (such tokens are read before any section value,
/// so the section would still await its value after them).
pub proof fn malformed_swap_is_dropped(
    line: Seq<char>,
    pre: Seq<Seq<char>>,
    v: Seq<char>,
    post: Seq<Seq<char>>,
)
    requires
        tokens(line) == pre + seq![swap_word(), v] + post,
        find(v, seq!['/']) is None,
        find(v, seq!['@']) is None,
        v.len() == 0 || v.last() != '%',
        !ends_with(v, freq_suffix()),
        v != swap_word(),
        forall|k: int| 0 <= k < pre.len() ==> pre[k] != swap_word(),
        forall|k: int| 0 <= k < post.len() ==> post[k] != swap_word(),
    ensures
        decoded(line).swap is None,
{
    let mid = seq![swap_word(), v];
    let e = empty_view();
    lemma_run_keeps_swap(line, pre, Awaiting::Nothing, e);
    let before = run(line, pre, Awaiting::Nothing, e);
    lemma_run_concat(line, pre, mid + post, Awaiting::Nothing, e);
    assert(pre + mid + post =~= pre + (mid + post));
    lemma_run_concat(line, mid, post, before.0, before.1);
    assert(mid[0] == swap_word());
    assert(mid.drop_first()[0] == v);
    assert(mid.drop_first().drop_first() =~= seq![]);
    let (s1, m1) = step(line, before.0, before.1, swap_word());
    let (s2, m2) = step(line, s1, m1, v);
    assert(run(line, mid, before.0, before.1) == run(line, mid.drop_first(), s1, m1));
    assert(run(line, mid.drop_first(), s1, m1) == run(line, mid.drop_first().drop_first(), s2, m2));
    assert(m2.swap is None && s2 != Awaiting::Swap);
    lemma_run_keeps_swap(line, post, s2, m2);
}

/// Tokens that are neither section words, nor end in `%`, nor hold `@`
/// change nothing when no section value is awaited.
pub proof fn lemma_run_unrecognized(line: Seq<char>, toks: Seq<Seq<char>>, m: TelemetryView)
    requires
        forall|k: int|
            0 <= k < toks.len() ==> {
                let t = #[trigger] toks[k];
                &&& t != ram_word()
                &&& t != swap_word()
                &&& t != cpu_word()
                &&& !(t.len() > 0 && t.last() == '%')
                &&& find(t, seq!['@']) is None
            },
    ensures
        run(line, toks, Awaiting::Nothing, m) == (Awaiting::Nothing, m),
    decreases toks.len(),
{
    if toks.len() > 0 {
        let t = toks[0];
        assert(step(line, Awaiting::Nothing, m, t) == (Awaiting::Nothing, m));
        assert forall|k: int| 0 <= k < toks.drop_first().len() implies toks.drop_first()[k]
            == toks[k + 1] by {}
        lemma_run_unrecognized(line, toks.drop_first(), m);
    }
}

/// A line with no token that is a section word, ends in `%` or holds `@`
/// (the empty line among them) decodes to the empty snapshot.
pub proof fn unrecognized_line_is_empty(line: Seq<char>)
    requires
        forall|k: int|
            0 <= k < tokens(line).len() ==> {
                let t = #[trigger] tokens(line)[k];
                &&& t != ram_word()
                &&& t != swap_word()
                &&& t != cpu_word()
                &&& !(t.len() > 0 && t.last() == '%')
                &&& find(t, seq!['@']) is None
            },
    ensures
        decoded(line) == empty_view(),
{
    lemma_run_unrecognized(line, tokens(line), empty_view());
}

proof fn lemma_run_engine_names(
    line: Seq<char>,
    toks: Seq<Seq<char>>,
    st: Awaiting,
    m: TelemetryView,
)
    requires
        forall|i: int| 0 <= i < m.engines.len() ==> #[trigger] m.engines[i].name == engine_label(line),
    ensures
        forall|i: int|
            0 <= i < run(line, toks, st, m).1.engines.len() ==> #[trigger] run(
                line,
                toks,
                st,
                m,
            ).1.engines[i].name == engine_label(line),
    decreases toks.len(),
{
    if toks.len() > 0 {
        let (st2, m2) = step(line, st, m, toks[0]);
        let extra = engine_reading(engine_label(line), toks[0]);
        assert forall|i: int| 0 <= i < extra.len() implies #[trigger] extra[i].name == engine_label(
            line,
        ) by {}
        assert forall|i: int| 0 <= i < m2.engines.len() implies #[trigger] m2.engines[i].name
            == engine_label(line) by {
            if m2.engines != m.engines {
                assert(m2.engines == m.engines + extra);
                if i >= m.engines.len() {
                    assert(m2.engines[i] == extra[i - m.engines.len()]);
                }
            }
        }
        lemma_run_engine_names(line, toks.drop_first(), st2, m2);
    }
}

/// Every engine entry of a line is named after the last token before the
/// line's first `_FREQ`, even where its load follows a later `_FREQ` label.
pub proof fn engines_take_first_label(line: Seq<char>)
    ensures
        forall|i: int|
            0 <= i < decoded(line).engines.len() ==> #[trigger] decoded(line).engines[i].name
                == engine_label(line),
{
    lemma_run_engine_names(line, tokens(line), Awaiting::Nothing, empty_view());
}

/// Decoding depends on the line alone: two decodings of one line give equal snapshots.
pub proof fn decoding_is_deterministic(line: &str, first: &Telemetry, second: &Telemetry)
    requires
        first@ == decoded(line@),
        second@ == decoded(line@),
    ensures
        first@ == second@,
{
}

} // verus!
