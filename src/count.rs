//! The IR line counter: finds each function body in textual LLVM IR and
//! counts its top-level instruction lines.
//!
//! The scan works on the raw bytes. Every token it looks for (`define `,
//! `}`, spaces, `@`, `(`, `"`, line breaks) is ASCII, and lossy UTF-8
//! decoding never folds an ASCII byte into a replacement character, so only
//! the symbol that is handed on needs decoding.

use vstd::prelude::*;
use vstd::slice::slice_subrange;
use crate::aggregate::{add_observation, lemma_sum_concat, lemma_sum_single, sum_of, Aggregate};
use crate::name::{normalize_symbol, normalized_name};

verus! {

/// The index of the line break that ends the line starting at `pos`, or the
/// length of `ir` for a last line without one.
pub open spec fn line_end(ir: Seq<u8>, pos: int) -> int
    decreases ir.len() - pos,
{
    if pos >= ir.len() {
        ir.len() as int
    } else if ir[pos] == 0x0a {
        pos
    } else {
        line_end(ir, pos + 1)
    }
}

/// Where the line after the one starting at `pos` starts, or the length of
/// `ir` when there is none.
pub open spec fn next_line_start(ir: Seq<u8>, pos: int) -> int {
    if line_end(ir, pos) < ir.len() {
        line_end(ir, pos) + 1
    } else {
        ir.len() as int
    }
}

/// The line starting at `pos`, without its line break, and without the
/// carriage return of a `\r\n` break.
pub open spec fn line_at(ir: Seq<u8>, pos: int) -> Seq<u8> {
    let e = line_end(ir, pos);
    if e < ir.len() && e > pos && ir[e - 1] == 0x0d {
        ir.subrange(pos, e - 1)
    } else {
        ir.subrange(pos, e)
    }
}

/// The bytes of `define `.
pub open spec fn define_prefix() -> Seq<u8> {
    seq![0x64u8, 0x65, 0x66, 0x69, 0x6e, 0x65, 0x20]
}

/// A line that starts a function definition.
pub open spec fn is_define_line(line: Seq<u8>) -> bool {
    line.len() >= 7 && line.subrange(0, 7) == define_prefix()
}

/// A line that is exactly `}`.
pub open spec fn is_close_line(line: Seq<u8>) -> bool {
    line.len() == 1 && line[0] == 0x7d
}

/// A line indented by exactly two spaces.
pub open spec fn is_body_line(line: Seq<u8>) -> bool {
    &&& line.len() >= 2
    &&& line[0] == 0x20
    &&& line[1] == 0x20
    &&& !(line.len() >= 3 && line[2] == 0x20)
}

/// The first index at or after `from` where `s` holds `b`, or `s.len()`.
pub open spec fn first_at_or_after(s: Seq<u8>, b: u8, from: int) -> int
    decreases s.len() - from,
{
    if from >= s.len() {
        s.len() as int
    } else if s[from] == b {
        from
    } else {
        first_at_or_after(s, b, from + 1)
    }
}

/// `s` without one leading and one trailing double quote, where present.
pub open spec fn trim_quotes(s: Seq<u8>) -> Seq<u8> {
    let t = if s.len() > 0 && s[0] == 0x22 {
        s.drop_first()
    } else {
        s
    };
    if t.len() > 0 && t.last() == 0x22 {
        t.drop_last()
    } else {
        t
    }
}

/// The symbol of a definition line: what stands between the first `@` and
/// the next `(`, quotes trimmed; none when either is missing.
pub open spec fn symbol_of(line: Seq<u8>) -> Option<Seq<u8>> {
    let at = first_at_or_after(line, 0x40, 0);
    let open = first_at_or_after(line, 0x28, at + 1);
    if at < line.len() && open < line.len() {
        Some(trim_quotes(line.subrange(at + 1, open)))
    } else {
        None
    }
}

/// What the counter remembers between lines: the symbol of the body it is
/// in, if any, and the lines counted since the last reset.
pub struct ScanState {
    pub pending: Option<Seq<u8>>,
    pub count: nat,
}

pub open spec fn initial_state() -> ScanState {
    ScanState { pending: None, count: 0 }
}

pub open spec fn next_state(st: ScanState, line: Seq<u8>) -> ScanState {
    if is_define_line(line) {
        ScanState { pending: symbol_of(line), count: 0 }
    } else if is_close_line(line) {
        ScanState { pending: None, count: 0 }
    } else if is_body_line(line) {
        ScanState { pending: st.pending, count: st.count + 1 }
    } else {
        st
    }
}

/// The observation (symbol, line count) that a line emits: one when it
/// closes a body whose symbol is known.
pub open spec fn emitted(st: ScanState, line: Seq<u8>) -> Seq<(Seq<u8>, nat)> {
    if is_close_line(line) && st.pending is Some {
        seq![(st.pending->0, st.count)]
    } else {
        seq![]
    }
}

/// The observations of the lines from `pos` on, starting in state `st`.
pub open spec fn observations_from(ir: Seq<u8>, pos: int, st: ScanState) -> Seq<(Seq<u8>, nat)>
    decreases ir.len() - pos,
    via observations_from_decreases
{
    if pos >= ir.len() {
        seq![]
    } else {
        let line = line_at(ir, pos);
        emitted(st, line) + observations_from(ir, next_line_start(ir, pos), next_state(st, line))
    }
}

#[via_fn]
proof fn observations_from_decreases(ir: Seq<u8>, pos: int, st: ScanState) {
    if pos < ir.len() {
        lemma_line_end_bounds(ir, pos);
    }
}

/// The observations of a whole IR text, in order.
pub open spec fn observations(ir: Seq<u8>) -> Seq<(Seq<u8>, nat)> {
    observations_from(ir, 0, initial_state())
}

/// The aggregate `m` after the observations `obs`, in order.
pub open spec fn tally(m: Map<Seq<char>, (nat, nat)>, obs: Seq<(Seq<u8>, nat)>) -> Map<
    Seq<char>,
    (nat, nat),
>
    decreases obs.len(),
{
    if obs.len() == 0 {
        m
    } else {
        tally(add_observation(m, normalized_name(obs[0].0), obs[0].1), obs.drop_first())
    }
}

pub proof fn lemma_line_end_bounds(ir: Seq<u8>, pos: int)
    requires
        pos <= ir.len(),
    ensures
        pos <= line_end(ir, pos) <= ir.len(),
        line_end(ir, pos) < ir.len() ==> ir[line_end(ir, pos)] == 0x0a,
    decreases ir.len() - pos,
{
    if pos < ir.len() && ir[pos] != 0x0a {
        lemma_line_end_bounds(ir, pos + 1);
    }
}

proof fn lemma_tally_one(m: Map<Seq<char>, (nat, nat)>, o: (Seq<u8>, nat), rest: Seq<(Seq<u8>, nat)>)
    ensures
        tally(m, seq![o] + rest) == tally(add_observation(m, normalized_name(o.0), o.1), rest),
{
    assert((seq![o] + rest).drop_first() =~= rest);
}

/// The line counts of a sequence of observations.
pub open spec fn counts(obs: Seq<(Seq<u8>, nat)>) -> Seq<nat> {
    obs.map_values(|o: (Seq<u8>, nat)| o.1)
}

proof fn lemma_tally_one_key(m: Map<Seq<char>, (nat, nat)>, obs: Seq<(Seq<u8>, nat)>, key: Seq<char>)
    requires
        obs.len() >= 1,
        forall|i: int| 0 <= i < obs.len() ==> normalized_name(#[trigger] obs[i].0) == key,
    ensures
        tally(m, obs) == m.insert(
            key,
            if m.contains_key(key) {
                (m[key].0 + obs.len(), m[key].1 + sum_of(counts(obs)))
            } else {
                (obs.len() as nat, sum_of(counts(obs)))
            },
        ),
    decreases obs.len(),
{
    let rest = obs.drop_first();
    let m1 = add_observation(m, key, obs[0].1);
    assert(normalized_name(obs[0].0) == key);
    assert(counts(obs) =~= seq![obs[0].1] + counts(rest));
    lemma_sum_concat(seq![obs[0].1], counts(rest));
    lemma_sum_single(obs[0].1);
    if rest.len() == 0 {
        assert(counts(rest) =~= Seq::<nat>::empty());
        assert(tally(m1, rest) == m1);
    } else {
        assert forall|i: int| 0 <= i < rest.len() implies normalized_name(#[trigger] rest[i].0) == key by {
            assert(rest[i] == obs[i + 1]);
        }
        lemma_tally_one_key(m1, rest, key);
        assert(m1.insert(key, (m1[key].0 + rest.len(), m1[key].1 + sum_of(counts(rest)))) =~= m.insert(
            key,
            if m.contains_key(key) {
                (m[key].0 + obs.len(), m[key].1 + sum_of(counts(obs)))
            } else {
                (obs.len() as nat, sum_of(counts(obs)))
            },
        ));
    }
}

/// Copies of one function merge into one record: when every body of `ir`
/// that is counted has a symbol that normalizes to `key`, and there is at
/// least one, counting `ir` into an empty aggregate gives the single record
/// `key` with as many copies as bodies and the sum of their line counts.
pub proof fn lemma_copies_merge(ir: Seq<u8>, key: Seq<char>)
    requires
        observations(ir).len() >= 1,
        forall|i: int|
            0 <= i < observations(ir).len() ==> normalized_name(#[trigger] observations(ir)[i].0)
                == key,
    ensures
        tally(Map::empty(), observations(ir)) == map![key => (observations(ir).len() as nat, sum_of(counts(observations(ir))))],
{
    lemma_tally_one_key(Map::empty(), observations(ir), key);
    assert(Map::<Seq<char>, (nat, nat)>::empty().insert(
        key,
        (observations(ir).len() as nat, sum_of(counts(observations(ir)))),
    ) =~= map![key => (observations(ir).len() as nat, sum_of(counts(observations(ir))))]);
}

/// A line that can stand in a text as it is: no line break in it, and no
/// carriage return at its end.
pub open spec fn is_plain_line(l: Seq<u8>) -> bool {
    &&& forall|i: int| 0 <= i < l.len() ==> #[trigger] l[i] != 0x0a
    &&& (l.len() == 0 || l.last() != 0x0d)
}

/// The text of `ls`, each line followed by a line break.
pub open spec fn lines_text(ls: Seq<Seq<u8>>) -> Seq<u8>
    decreases ls.len(),
{
    if ls.len() == 0 {
        seq![]
    } else {
        ls[0] + seq![0x0au8] + lines_text(ls.drop_first())
    }
}

/// The observations of the lines `ls`, starting in state `st`.
pub open spec fn scan_lines(ls: Seq<Seq<u8>>, st: ScanState) -> Seq<(Seq<u8>, nat)>
    decreases ls.len(),
{
    if ls.len() == 0 {
        seq![]
    } else {
        emitted(st, ls[0]) + scan_lines(ls.drop_first(), next_state(st, ls[0]))
    }
}

/// The line `}`.
pub open spec fn close_line() -> Seq<u8> {
    seq![0x7du8]
}

/// A function block: its `define` line, its body lines, and `}`.
pub open spec fn block_lines(b: (Seq<u8>, Seq<Seq<u8>>)) -> Seq<Seq<u8>> {
    seq![b.0] + b.1 + seq![close_line()]
}

/// The lines of the blocks, one after another.
pub open spec fn blocks_lines(bs: Seq<(Seq<u8>, Seq<Seq<u8>>)>) -> Seq<Seq<u8>>
    decreases bs.len(),
{
    if bs.len() == 0 {
        seq![]
    } else {
        block_lines(bs[0]) + blocks_lines(bs.drop_first())
    }
}

/// The number of lines of `body` indented by exactly two spaces.
pub open spec fn body_count(body: Seq<Seq<u8>>) -> nat
    decreases body.len(),
{
    if body.len() == 0 {
        0
    } else {
        (if is_body_line(body[0]) { 1nat } else { 0nat }) + body_count(body.drop_first())
    }
}

/// A well-formed block: a definition line with a symbol, and body lines of
/// which none is `}` or another definition line.
pub open spec fn is_block(b: (Seq<u8>, Seq<Seq<u8>>)) -> bool {
    &&& is_define_line(b.0)
    &&& symbol_of(b.0) is Some
    &&& forall|i: int|
        0 <= i < b.1.len() ==> !is_define_line(#[trigger] b.1[i]) && !is_close_line(b.1[i])
}

proof fn lemma_line_end_shift(pre: Seq<u8>, t: Seq<u8>, p: int)
    requires
        0 <= p,
    ensures
        line_end(pre + t, pre.len() + p) == pre.len() + line_end(t, p),
    decreases t.len() - p,
{
    if p < t.len() {
        assert((pre + t)[pre.len() + p] == t[p]);
        lemma_line_end_shift(pre, t, p + 1);
    }
}

proof fn lemma_observations_shift(pre: Seq<u8>, t: Seq<u8>, p: int, st: ScanState)
    requires
        0 <= p,
    ensures
        observations_from(pre + t, pre.len() + p, st) == observations_from(t, p, st),
    decreases t.len() - p,
{
    if p < t.len() {
        let ir = pre + t;
        lemma_line_end_shift(pre, t, p);
        lemma_line_end_bounds(t, p);
        let e = line_end(t, p);
        if e > p {
            assert(ir[pre.len() + e - 1] == t[e - 1]);
        }
        if e < t.len() && e > p && t[e - 1] == 0x0d {
            assert(ir.subrange(pre.len() + p, pre.len() + e - 1) =~= t.subrange(p, e - 1));
        } else {
            assert(ir.subrange(pre.len() + p, pre.len() + e) =~= t.subrange(p, e));
        }
        assert(line_at(ir, pre.len() + p) == line_at(t, p));
        assert(next_line_start(ir, pre.len() + p) == pre.len() + next_line_start(t, p));
        lemma_observations_shift(pre, t, next_line_start(t, p), next_state(st, line_at(t, p)));
    }
}

proof fn lemma_line_end_plain(ir: Seq<u8>, l: Seq<u8>, i: int)
    requires
        is_plain_line(l),
        ir.len() > l.len(),
        ir.subrange(0, l.len() as int) == l,
        ir[l.len() as int] == 0x0a,
        0 <= i <= l.len(),
    ensures
        line_end(ir, i) == l.len(),
    decreases l.len() - i,
{
    if i < l.len() {
        assert(ir[i] == l[i]);
        lemma_line_end_plain(ir, l, i + 1);
    }
}

proof fn lemma_lines_text_scan(ls: Seq<Seq<u8>>, st: ScanState)
    requires
        forall|i: int| 0 <= i < ls.len() ==> is_plain_line(#[trigger] ls[i]),
    ensures
        observations_from(lines_text(ls), 0, st) == scan_lines(ls, st),
    decreases ls.len(),
{
    if ls.len() > 0 {
        let l = ls[0];
        let pre = l + seq![0x0au8];
        let rest = lines_text(ls.drop_first());
        let ir = lines_text(ls);
        assert(ir == pre + rest);
        assert(ir.subrange(0, l.len() as int) =~= l);
        assert(ir[l.len() as int] == 0x0a);
        lemma_line_end_plain(ir, l, 0);
        assert(ir.subrange(0, l.len() as int) == l);
        assert(line_at(ir, 0) == l);
        lemma_observations_shift(pre, rest, 0, next_state(st, l));
        assert forall|i: int| 0 <= i < ls.drop_first().len() implies is_plain_line(
            #[trigger] ls.drop_first()[i],
        ) by {
            assert(ls.drop_first()[i] == ls[i + 1]);
        }
        lemma_lines_text_scan(ls.drop_first(), next_state(st, l));
    }
}

proof fn lemma_scan_body(body: Seq<Seq<u8>>, tail: Seq<Seq<u8>>, sym: Seq<u8>, c: nat)
    requires
        forall|i: int|
            0 <= i < body.len() ==> !is_define_line(#[trigger] body[i]) && !is_close_line(body[i]),
    ensures
        scan_lines(body + tail, ScanState { pending: Some(sym), count: c }) == scan_lines(
            tail,
            ScanState { pending: Some(sym), count: c + body_count(body) },
        ),
    decreases body.len(),
{
    if body.len() == 0 {
        assert(body + tail =~= tail);
    } else {
        let l = body[0];
        assert((body + tail)[0] == l);
        assert((body + tail).drop_first() =~= body.drop_first() + tail);
        assert(!is_define_line(l) && !is_close_line(l));
        let n = if is_body_line(l) { c + 1 } else { c };
        assert forall|i: int| 0 <= i < body.drop_first().len() implies !is_define_line(
            #[trigger] body.drop_first()[i],
        ) && !is_close_line(body.drop_first()[i]) by {
            assert(body.drop_first()[i] == body[i + 1]);
        }
        lemma_scan_body(body.drop_first(), tail, sym, n);
        assert(emitted(ScanState { pending: Some(sym), count: c }, l) =~= seq![]);
        assert(seq![] + scan_lines(tail, ScanState { pending: Some(sym), count: n + body_count(body.drop_first()) })
            =~= scan_lines(tail, ScanState { pending: Some(sym), count: c + body_count(body) }));
    }
}

proof fn lemma_scan_block(b: (Seq<u8>, Seq<Seq<u8>>), rest: Seq<Seq<u8>>, st: ScanState)
    requires
        is_block(b),
    ensures
        scan_lines(block_lines(b) + rest, st) == seq![(symbol_of(b.0)->0, body_count(b.1))]
            + scan_lines(rest, initial_state()),
{
    let sym = symbol_of(b.0)->0;
    let ls = block_lines(b) + rest;
    let tail = seq![close_line()] + rest;
    assert(ls[0] == b.0);
    assert(ls.drop_first() =~= b.1 + tail);
    assert(emitted(st, b.0) =~= seq![]);
    lemma_scan_body(b.1, tail, sym, 0);
    let after = ScanState { pending: Some(sym), count: body_count(b.1) };
    assert(tail[0] == close_line());
    assert(tail.drop_first() =~= rest);
    assert(emitted(after, close_line()) == seq![(sym, body_count(b.1))]);
    assert(next_state(after, close_line()) == initial_state());
    assert(seq![] + scan_lines(b.1 + tail, ScanState { pending: Some(sym), count: 0 })
        =~= scan_lines(b.1 + tail, ScanState { pending: Some(sym), count: 0 }));
}

/// The observation that a well-formed block gives.
pub open spec fn block_observation(b: (Seq<u8>, Seq<Seq<u8>>)) -> (Seq<u8>, nat) {
    (symbol_of(b.0)->0, body_count(b.1))
}

proof fn lemma_scan_blocks(bs: Seq<(Seq<u8>, Seq<Seq<u8>>)>)
    requires
        forall|i: int| 0 <= i < bs.len() ==> is_block(#[trigger] bs[i]),
    ensures
        scan_lines(blocks_lines(bs), initial_state()) == bs.map_values(
            |b: (Seq<u8>, Seq<Seq<u8>>)| block_observation(b),
        ),
    decreases bs.len(),
{
    if bs.len() > 0 {
        assert(is_block(bs[0]));
        lemma_scan_block(bs[0], blocks_lines(bs.drop_first()), initial_state());
        assert forall|i: int| 0 <= i < bs.drop_first().len() implies is_block(
            #[trigger] bs.drop_first()[i],
        ) by {
            assert(bs.drop_first()[i] == bs[i + 1]);
        }
        lemma_scan_blocks(bs.drop_first());
        assert(bs.map_values(|b: (Seq<u8>, Seq<Seq<u8>>)| block_observation(b)) =~= seq![
            block_observation(bs[0]),
        ] + bs.drop_first().map_values(|b: (Seq<u8>, Seq<Seq<u8>>)| block_observation(b)));
    } else {
        assert(bs.map_values(|b: (Seq<u8>, Seq<Seq<u8>>)| block_observation(b)) =~= seq![]);
    }
}

/// Counting IR text made of `copies` well-formed function blocks (one or
/// more), whose symbols all normalize to `key`, into an empty aggregate
/// gives the single record `key` with `copies` copies and, as its lines, the
/// sum over the blocks of their body lines indented by exactly two spaces.
pub proof fn lemma_blocks_merge(bs: Seq<(Seq<u8>, Seq<Seq<u8>>)>, key: Seq<char>)
    requires
        bs.len() >= 1,
        forall|i: int| 0 <= i < bs.len() ==> is_block(#[trigger] bs[i]),
        forall|i: int| 0 <= i < bs.len() ==> normalized_name(symbol_of((#[trigger] bs[i]).0)->0) == key,
        forall|i: int|
            0 <= i < blocks_lines(bs).len() ==> is_plain_line(#[trigger] blocks_lines(bs)[i]),
    ensures
        tally(Map::empty(), observations(lines_text(blocks_lines(bs)))) == map![key => (bs.len() as nat, sum_of(bs.map_values(|b: (Seq<u8>, Seq<Seq<u8>>)| body_count(b.1))))],
{
    let ir = lines_text(blocks_lines(bs));
    lemma_lines_text_scan(blocks_lines(bs), initial_state());
    lemma_scan_blocks(bs);
    let obs = observations(ir);
    assert(obs == bs.map_values(|b: (Seq<u8>, Seq<Seq<u8>>)| block_observation(b)));
    assert forall|i: int| 0 <= i < obs.len() implies normalized_name(#[trigger] obs[i].0) == key by {
        assert(obs[i] == block_observation(bs[i]));
    }
    assert(counts(obs) =~= bs.map_values(|b: (Seq<u8>, Seq<Seq<u8>>)| body_count(b.1)));
    lemma_copies_merge(ir, key);
}

/// Whether the line `ir[start..end]` starts with `define `.
fn starts_define(ir: &[u8], start: usize, end: usize) -> (r: bool)
    requires
        start <= end <= ir@.len(),
    ensures
        r == is_define_line(ir@.subrange(start as int, end as int)),
{
    let ghost line = ir@.subrange(start as int, end as int);
    if end - start < 7 {
        return false;
    }
    let r = ir[start] == 0x64 && ir[start + 1] == 0x65 && ir[start + 2] == 0x66 && ir[start + 3]
        == 0x69 && ir[start + 4] == 0x6e && ir[start + 5] == 0x65 && ir[start + 6] == 0x20;
    assert(r ==> line.subrange(0, 7) =~= define_prefix());
    assert(line.subrange(0, 7) == define_prefix() ==> r) by {
        if line.subrange(0, 7) == define_prefix() {
            assert(line.subrange(0, 7)[0] == 0x64);
            assert(line.subrange(0, 7)[1] == 0x65);
            assert(line.subrange(0, 7)[2] == 0x66);
            assert(line.subrange(0, 7)[3] == 0x69);
            assert(line.subrange(0, 7)[4] == 0x6e);
            assert(line.subrange(0, 7)[5] == 0x65);
            assert(line.subrange(0, 7)[6] == 0x20);
        }
    }
    r
}

/// Where the symbol of the definition line `ir[start..end]` stands in `ir`.
fn symbol_span(ir: &[u8], start: usize, end: usize) -> (r: Option<(usize, usize)>)
    requires
        start <= end <= ir@.len(),
    ensures
        match symbol_of(ir@.subrange(start as int, end as int)) {
            None => r is None,
            Some(sym) => r matches Some((a, b)) && start <= a <= b <= end && ir@.subrange(
                a as int,
                b as int,
            ) == sym,
        },
{
    let ghost line = ir@.subrange(start as int, end as int);
    let mut i = start;
    while i < end && ir[i] != 0x40
        invariant
            start <= i <= end <= ir@.len(),
            line == ir@.subrange(start as int, end as int),
            first_at_or_after(line, 0x40, 0) == first_at_or_after(line, 0x40, i - start),
        decreases end - i,
    {
        i = i + 1;
    }
    if i == end {
        return None;
    }
    let mut j = i + 1;
    while j < end && ir[j] != 0x28
        invariant
            start <= i < j <= end <= ir@.len(),
            line == ir@.subrange(start as int, end as int),
            first_at_or_after(line, 0x40, 0) == i - start,
            first_at_or_after(line, 0x28, i - start + 1) == first_at_or_after(line, 0x28, j - start),
        decreases end - j,
    {
        j = j + 1;
    }
    if j == end {
        return None;
    }
    let ghost inner = line.subrange(i - start + 1, j - start);
    assert(inner =~= ir@.subrange(i + 1, j as int));
    let mut a = i + 1;
    let mut b = j;
    if a < b && ir[a] == 0x22 {
        a = a + 1;
        assert(inner.drop_first() =~= ir@.subrange(a as int, b as int));
    }
    if a < b && ir[b - 1] == 0x22 {
        b = b - 1;
        assert(ir@.subrange(a as int, b as int + 1).drop_last() =~= ir@.subrange(a as int, b as int));
    }
    Some((a, b))
}

/// Adds to `instantiations` one copy per function body of the IR text `ir`,
/// under the body's normalized name, with the number of lines in it that
/// are indented by exactly two spaces.
pub fn count_lines(instantiations: &mut Aggregate, ir: &[u8])
    requires
        old(instantiations).wf(),
        old(instantiations).spec_total_lines() + ir@.len() <= usize::MAX,
        old(instantiations).spec_total_copies() + ir@.len() <= usize::MAX,
    ensures
        final(instantiations).wf(),
        final(instantiations)@ == tally(old(instantiations)@, observations(ir@)),
        final(instantiations).spec_total_copies() == old(instantiations).spec_total_copies()
            + observations(ir@).len(),
        final(instantiations).spec_total_lines() == old(instantiations).spec_total_lines()
            + sum_of(counts(observations(ir@))),
{
    let ghost goal = tally(instantiations@, observations(ir@));
    let ghost base_lines = instantiations.spec_total_lines();
    let ghost base_copies = instantiations.spec_total_copies();
    let mut pos: usize = 0;
    let mut pending: Option<(usize, usize)> = None;
    let mut count: usize = 0;
    while pos < ir.len()
        invariant
            instantiations.wf(),
            pos <= ir@.len(),
            base_lines + ir@.len() <= usize::MAX,
            base_copies + ir@.len() <= usize::MAX,
            instantiations.spec_total_lines() + count <= base_lines + pos,
            instantiations.spec_total_copies() <= base_copies + pos,
            match pending {
                Some((a, b)) => a <= b <= ir@.len(),
                None => true,
            },
            tally(
                instantiations@,
                observations_from(
                    ir@,
                    pos as int,
                    ScanState {
                        pending: match pending {
                            Some((a, b)) => Some(ir@.subrange(a as int, b as int)),
                            None => None,
                        },
                        count: count as nat,
                    },
                ),
            ) == goal,
            ({
                let rest = observations_from(
                    ir@,
                    pos as int,
                    ScanState {
                        pending: match pending {
                            Some((a, b)) => Some(ir@.subrange(a as int, b as int)),
                            None => None,
                        },
                        count: count as nat,
                    },
                );
                &&& instantiations.spec_total_copies() + rest.len() == base_copies + observations(ir@).len()
                &&& instantiations.spec_total_lines() + sum_of(counts(rest)) == base_lines + sum_of(counts(observations(ir@)))
            }),
        decreases ir@.len() - pos,
    {
        let ghost st = ScanState {
            pending: match pending {
                Some((a, b)) => Some(ir@.subrange(a as int, b as int)),
                None => None,
            },
            count: count as nat,
        };
        let mut e = pos;
        while e < ir.len() && ir[e] != 0x0a
            invariant
                pos <= e <= ir@.len(),
                line_end(ir@, pos as int) == line_end(ir@, e as int),
            decreases ir@.len() - e,
        {
            e = e + 1;
        }
        let ghost line = line_at(ir@, pos as int);
        let mut le = e;
        if e < ir.len() && e > pos && ir[e - 1] == 0x0d {
            le = e - 1;
        }
        assert(line == ir@.subrange(pos as int, le as int));
        let ghost next = next_state(st, line);
        proof {
            assert(observations_from(ir@, pos as int, st) == emitted(st, line) + observations_from(
                ir@,
                next_line_start(ir@, pos as int),
                next,
            ));
            let rest = observations_from(ir@, next_line_start(ir@, pos as int), next);
            assert(counts(emitted(st, line) + rest) =~= counts(emitted(st, line)) + counts(rest));
            lemma_sum_concat(counts(emitted(st, line)), counts(rest));
            if emitted(st, line).len() == 1 {
                lemma_sum_single(count as nat);
                assert(counts(emitted(st, line)) =~= seq![count as nat]);
            } else {
                assert(counts(emitted(st, line)) =~= Seq::<nat>::empty());
            }
        }
        if starts_define(ir, pos, le) {
            pending = symbol_span(ir, pos, le);
            count = 0;
            assert(emitted(st, line) =~= seq![]);
        } else if le - pos == 1 && ir[pos] == 0x7d {
            assert(is_close_line(line));
            match pending {
                Some((a, b)) => {
                    let key = normalize_symbol(slice_subrange(ir, a, b));
                    proof {
                        lemma_tally_one(
                            instantiations@,
                            (ir@.subrange(a as int, b as int), count as nat),
                            observations_from(ir@, next_line_start(ir@, pos as int), next),
                        );
                    }
                    instantiations.add(key, count);
                },
                None => {
                    assert(emitted(st, line) =~= seq![]);
                },
            }
            pending = None;
            count = 0;
        } else {
            assert(!is_close_line(line));
            assert(emitted(st, line) =~= seq![]);
            if le - pos >= 2 && ir[pos] == 0x20 && ir[pos + 1] == 0x20 && !(le - pos >= 3 && ir[pos
                + 2] == 0x20) {
                count = count + 1;
            }
        }
        if e < ir.len() {
            pos = e + 1;
        } else {
            pos = e;
        }
    }
}

} // verus!
