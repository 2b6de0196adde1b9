//! The mathematical model of the stream.
//!
//! The ideal stream is the symbol repeated forever; a read request at
//! absolute offset `o` with capacity `c` against a supply of `s` whole
//! symbols delivers a slice of that stream. The spec functions here say
//! exactly how long that slice is (`serve_written`), how many symbols the
//! read charges against the supply (`serve_charge`), and which invariant a
//! sequential session maintains (`session_inv`). The lemmas state the laws
//! of the design: the supply is conserved, an exhausted stream reads as
//! zero bytes, and the delivered bytes do not depend on how the reads were
//! chunked.

use vstd::arithmetic::div_mod::{
    lemma_add_mod_noop, lemma_fundamental_div_mod, lemma_fundamental_div_mod_converse,
    lemma_mod_division_less_than_divisor, lemma_mod_multiples_basic, lemma_mod_multiples_vanish,
    lemma_small_mod,
};
use vstd::prelude::*;

verus! {

/// The smaller of two natural numbers.
pub open spec fn min_nat(a: nat, b: nat) -> nat {
    if a <= b {
        a
    } else {
        b
    }
}

/// A symbol is usable when it has at least one byte.
pub open spec fn symbol_wf(sym: Seq<u8>) -> bool {
    sym.len() >= 1
}

/// Byte at absolute position `pos` of the ideal stream: the symbol repeated
/// forever.
pub open spec fn stream_byte(sym: Seq<u8>, pos: int) -> u8
    recommends
        symbol_wf(sym),
        pos >= 0,
{
    sym[pos % (sym.len() as int)]
}

/// The slice of the ideal stream that starts at absolute position `offset`
/// and holds `len` bytes.
pub open spec fn stream_segment(sym: Seq<u8>, offset: int, len: nat) -> Seq<u8>
    recommends
        symbol_wf(sym),
        offset >= 0,
{
    Seq::new(len, |i: int| stream_byte(sym, offset + i))
}

/// Position within the current symbol at absolute offset `offset`:
/// zero means the offset sits exactly on a symbol boundary.
pub open spec fn phase_of(offset: int, w: nat) -> nat
    recommends
        w >= 1,
        offset >= 0,
{
    (offset % (w as int)) as nat
}

/// How many whole symbols a boundary-aligned read with capacity `cap`
/// emits when `supply` symbols remain: the capacity in symbols, clamped to
/// the supply.
pub open spec fn whole_symbols(cap: nat, supply: nat, w: nat) -> nat
    recommends
        w >= 1,
{
    min_nat(cap / w, supply)
}

/// How many leading bytes of one further symbol a boundary-aligned read
/// emits after its whole symbols. The partial symbol is emitted only when
/// the supply, not the capacity, has at least one more symbol to back it;
/// it is intentionally left straddled, to be completed and charged by a
/// later request.
pub open spec fn tail_bytes(cap: nat, supply: nat, w: nat) -> nat
    recommends
        w >= 1,
{
    if cap / w < supply {
        cap % w
    } else {
        0
    }
}

/// Bytes delivered by a boundary-aligned read.
pub open spec fn aligned_written(cap: nat, supply: nat, w: nat) -> nat
    recommends
        w >= 1,
{
    whole_symbols(cap, supply, w) * w + tail_bytes(cap, supply, w)
}

/// A read that starts mid-symbol finishes a symbol that an earlier, shorter
/// read left straddled. That symbol was emitted only because the supply
/// still held it, so a well-formed request never starts mid-symbol with an
/// empty supply.
pub open spec fn straddle_ok(offset: int, supply: nat, w: nat) -> bool
    recommends
        w >= 1,
        offset >= 0,
{
    phase_of(offset, w) != 0 ==> supply >= 1
}

/// Bytes delivered by a read at offset `offset` with capacity `cap` when
/// `supply` whole symbols remain.
pub open spec fn serve_written(offset: int, cap: nat, supply: nat, w: nat) -> nat
    recommends
        w >= 1,
        offset >= 0,
        straddle_ok(offset, supply, w),
{
    let p = phase_of(offset, w);
    if p == 0 {
        aligned_written(cap, supply, w)
    } else {
        let need = (w - p) as nat;
        if cap < need {
            cap
        } else {
            need + aligned_written((cap - need) as nat, (supply - 1) as nat, w)
        }
    }
}

/// Whole symbols charged against the supply by that same read. A symbol is
/// charged exactly once, at the request during which its last byte is
/// emitted: a straddled symbol is charged on completion, and a trailing
/// partial symbol is not charged at all.
pub open spec fn serve_charge(offset: int, cap: nat, supply: nat, w: nat) -> nat
    recommends
        w >= 1,
        offset >= 0,
        straddle_ok(offset, supply, w),
{
    let p = phase_of(offset, w);
    if p == 0 {
        whole_symbols(cap, supply, w)
    } else {
        let need = (w - p) as nat;
        if cap < need {
            0
        } else {
            1 + whole_symbols((cap - need) as nat, (supply - 1) as nat, w)
        }
    }
}

/// The invariant of a sequential session that opened with `initial` symbols
/// of supply: the counter has been charged exactly once per fully delivered
/// symbol, and a straddled symbol is always backed by one remaining unit of
/// supply.
pub open spec fn session_inv(initial: nat, offset: nat, supply: nat, w: nat) -> bool {
    &&& w >= 1
    &&& supply + offset / w == initial
    &&& (offset % w != 0 ==> supply >= 1)
}

/// Bytes delivered by a read against the shared counter, given the two
/// values that depend on the other sessions racing on it: how many whole
/// symbols the atomic reservation granted, and whether the counter still
/// showed backing for a trailing partial symbol afterwards.
pub open spec fn shared_plan_len(
    offset: int,
    cap: nat,
    granted: nat,
    tail_backed: bool,
    w: nat,
) -> nat
    recommends
        w >= 1,
        offset >= 0,
{
    let p = phase_of(offset, w);
    let fin: nat = if p == 0 {
        0
    } else {
        (w - p) as nat
    };
    if p != 0 && cap < fin {
        cap
    } else {
        let budget = (cap - fin) as nat;
        if granted == budget / w && budget % w != 0 && tail_backed {
            fin + granted * w + budget % w
        } else {
            fin + granted * w
        }
    }
}

/// What a read against the shared counter may deliver: the exact plan for
/// some reservation the counter granted (never more than asked) and some
/// state of the backing hint. Everything else about the length is fixed by
/// the request alone.
pub open spec fn shared_len_ok(offset: int, cap: nat, w: nat, len: nat) -> bool
    recommends
        w >= 1,
        offset >= 0,
{
    let p = phase_of(offset, w);
    let fin: nat = if p == 0 {
        0
    } else {
        (w - p) as nat
    };
    if p != 0 && cap < fin {
        len == cap
    } else {
        exists|granted: nat, tail_backed: bool|
            granted <= ((cap - fin) as nat) / w && len == #[trigger] shared_plan_len(
                offset,
                cap,
                granted,
                tail_backed,
                w,
            )
    }
}

/// A position that is a whole number of symbols into the stream reads the
/// symbol from its start.
pub proof fn lemma_stream_block(sym: Seq<u8>, pos: int, j: int)
    requires
        symbol_wf(sym),
        pos >= 0,
        j >= 0,
        pos % (sym.len() as int) == 0,
    ensures
        stream_byte(sym, pos + j) == sym[j % (sym.len() as int)],
{
    let w = sym.len() as int;
    lemma_fundamental_div_mod(pos, w);
    lemma_mod_multiples_vanish(pos / w, j, w);
}

/// Within one symbol, consecutive stream positions read consecutive symbol
/// bytes.
pub proof fn lemma_stream_in_symbol(sym: Seq<u8>, offset: int, j: int)
    requires
        symbol_wf(sym),
        offset >= 0,
        j >= 0,
        offset % (sym.len() as int) + j < sym.len() as int,
    ensures
        stream_byte(sym, offset + j) == sym[offset % (sym.len() as int) + j],
{
    let w = sym.len() as int;
    lemma_add_mod_noop(offset, j, w);
    lemma_mod_division_less_than_divisor(offset, w);
    lemma_small_mod(j as nat, w as nat);
    lemma_small_mod((offset % w + j) as nat, w as nat);
}

/// One boundary-aligned read preserves the session invariant: the whole
/// symbols it emits are charged, a trailing partial symbol is backed but
/// left uncharged, and nothing past the capacity is written.
proof fn lemma_aligned_step(initial: nat, offset: nat, supply: nat, cap: nat, w: nat)
    requires
        session_inv(initial, offset, supply, w),
        offset % w == 0,
    ensures
        whole_symbols(cap, supply, w) <= supply,
        aligned_written(cap, supply, w) <= cap,
        session_inv(
            initial,
            offset + aligned_written(cap, supply, w),
            (supply - whole_symbols(cap, supply, w)) as nat,
            w,
        ),
{
    let wh = whole_symbols(cap, supply, w);
    let t = tail_bytes(cap, supply, w);
    let q = offset as int / w as int;
    lemma_fundamental_div_mod(offset as int, w as int);
    lemma_fundamental_div_mod(cap as int, w as int);
    lemma_mod_division_less_than_divisor(cap as int, w as int);
    assert(wh * w <= cap) by (nonlinear_arith)
        requires
            wh <= cap as int / w as int,
            cap as int == w * (cap as int / w as int) + cap as int % w as int,
            cap as int % w as int >= 0,
            w >= 1,
    ;
    let o2 = offset + wh * w + t;
    assert(o2 == (q + wh) * w + t) by (nonlinear_arith)
        requires
            offset == w * q,
            o2 == offset + wh * w + t,
    ;
    if t == 0 {
        lemma_fundamental_div_mod_converse(o2 as int, w as int, q + wh, 0);
    } else {
        assert(t == cap % w && wh == cap / w && wh < supply);
        assert(wh * w + t == cap) by (nonlinear_arith)
            requires
                wh == cap as int / w as int,
                t == (cap as int) % (w as int),
                cap as int == w * (cap as int / w as int) + (cap as int) % (w as int),
        ;
        lemma_fundamental_div_mod_converse(o2 as int, w as int, q + wh, t as int);
    }
    assert(o2 as int / w as int == q + wh);
    assert(o2 as int % w as int == t);
}

/// One read preserves the session invariant: it never charges more than
/// the supply holds, never writes past the capacity, and leaves the
/// counter charged exactly once per symbol whose delivery it completed.
pub proof fn lemma_serve_step(initial: nat, offset: nat, supply: nat, cap: nat, w: nat)
    requires
        session_inv(initial, offset, supply, w),
    ensures
        serve_charge(offset as int, cap, supply, w) <= supply,
        serve_written(offset as int, cap, supply, w) <= cap,
        session_inv(
            initial,
            offset + serve_written(offset as int, cap, supply, w),
            (supply - serve_charge(offset as int, cap, supply, w)) as nat,
            w,
        ),
{
    let p = phase_of(offset as int, w);
    let q = offset as int / w as int;
    lemma_fundamental_div_mod(offset as int, w as int);
    lemma_mod_division_less_than_divisor(offset as int, w as int);
    if p == 0 {
        lemma_aligned_step(initial, offset, supply, cap, w);
    } else {
        let need = (w - p) as nat;
        if cap < need {
            let o2 = offset + cap;
            lemma_fundamental_div_mod_converse(o2 as int, w as int, q, (p + cap) as int);
            assert(o2 as int / w as int == q && o2 as int % w as int == p + cap);
        } else {
            let o1 = offset + need;
            assert(o1 == (q + 1) * w) by (nonlinear_arith)
                requires
                    offset == w * q + p,
                    o1 == offset + (w - p),
            ;
            lemma_fundamental_div_mod_converse(o1 as int, w as int, q + 1, 0);
            assert(session_inv(initial, o1, (supply - 1) as nat, w));
            lemma_aligned_step(initial, o1, (supply - 1) as nat, (cap - need) as nat, w);
        }
    }
}

/// Conservation: a session that opened with `initial` symbols has
/// delivered at most `initial * w` bytes, with equality exactly when the
/// supply is exhausted.
pub proof fn lemma_conservation(initial: nat, offset: nat, supply: nat, w: nat)
    requires
        session_inv(initial, offset, supply, w),
    ensures
        offset <= initial * w,
        supply == 0 <==> offset == initial * w,
{
    let q = offset as int / w as int;
    lemma_fundamental_div_mod(offset as int, w as int);
    lemma_mod_division_less_than_divisor(offset as int, w as int);
    assert(q == initial - supply);
    if supply == 0 {
        assert(offset % w == 0);
        assert(offset == initial * w) by (nonlinear_arith)
            requires
                offset == w * q + offset as int % w as int,
                offset as int % w as int == 0,
                q == initial,
        ;
    } else {
        assert(offset < initial * w) by (nonlinear_arith)
            requires
                offset == w * q + offset as int % w as int,
                ((offset as int) % (w as int)) < w,
                q + 1 <= initial,
                w >= 1,
                initial >= supply,
                supply >= 1,
        ;
    }
}

/// Zero-terminates: once a session has delivered `initial * w` bytes, any
/// further read delivers nothing, whatever its capacity.
pub proof fn lemma_zero_terminates(initial: nat, offset: nat, supply: nat, cap: nat, w: nat)
    requires
        session_inv(initial, offset, supply, w),
        offset == initial * w,
    ensures
        serve_written(offset as int, cap, supply, w) == 0,
{
    lemma_conservation(initial, offset, supply, w);
    assert(supply == 0);
    lemma_mod_multiples_basic(initial as int, w as int);
    assert(phase_of(offset as int, w) == 0);
    assert(whole_symbols(cap, 0, w) == 0);
    assert(tail_bytes(cap, 0, w) == 0);
    assert(aligned_written(cap, 0, w) == 0);
}

/// Progress: while the session has not yet delivered `initial * w` bytes,
/// a read with nonzero capacity delivers at least one byte. A read of
/// zero bytes therefore means exactly that the stream has ended.
pub proof fn lemma_progress(initial: nat, offset: nat, supply: nat, cap: nat, w: nat)
    requires
        session_inv(initial, offset, supply, w),
        offset < initial * w,
        cap >= 1,
    ensures
        serve_written(offset as int, cap, supply, w) >= 1,
{
    let p = phase_of(offset as int, w);
    lemma_fundamental_div_mod(offset as int, w as int);
    lemma_mod_division_less_than_divisor(offset as int, w as int);
    if p == 0 {
        let q = offset as int / w as int;
        assert(q < initial) by (nonlinear_arith)
            requires
                offset == w * q + offset as int % w as int,
                offset as int % w as int == 0,
                offset < initial * w,
                w >= 1,
                q >= 0,
        ;
        assert(supply >= 1);
        lemma_fundamental_div_mod(cap as int, w as int);
        lemma_mod_division_less_than_divisor(cap as int, w as int);
        if cap >= w {
            let cq = cap as int / w as int;
            assert(cq >= 1) by (nonlinear_arith)
                requires
                    cap as int == w * cq + cap as int % w as int,
                    ((cap as int) % (w as int)) < w,
                    cap >= w,
                    w >= 1,
            ;
            assert(whole_symbols(cap, supply, w) >= 1);
            assert(whole_symbols(cap, supply, w) * w >= 1) by (nonlinear_arith)
                requires
                    whole_symbols(cap, supply, w) >= 1,
                    w >= 1,
            ;
        } else {
            let cq = cap as int / w as int;
            assert(cq == 0) by (nonlinear_arith)
                requires
                    cap as int == w * cq + cap as int % w as int,
                    cap as int % w as int >= 0,
                    cap < w,
                    w >= 1,
                    cq >= 0,
            ;
            lemma_small_mod(cap, w);
            assert(tail_bytes(cap, supply, w) == cap);
        }
    }
}

/// Total bytes a fresh session with supply `initial` has delivered after
/// serving the reads in `caps`, in order, each read resuming at the
/// running total as its offset.
pub open spec fn run_delivered(initial: nat, w: nat, caps: Seq<nat>) -> nat
    recommends
        w >= 1,
    decreases caps.len(),
{
    if caps.len() == 0 {
        0
    } else {
        let o = run_delivered(initial, w, caps.drop_last());
        o + serve_written(o as int, caps.last(), (initial - o / w) as nat, w)
    }
}

/// The bytes that same session has handed out, concatenated in order.
pub open spec fn run_output(sym: Seq<u8>, initial: nat, caps: Seq<nat>) -> Seq<u8>
    recommends
        symbol_wf(sym),
    decreases caps.len(),
{
    let w = sym.len();
    if caps.len() == 0 {
        Seq::empty()
    } else {
        let o = run_delivered(initial, w, caps.drop_last());
        run_output(sym, initial, caps.drop_last()) + stream_segment(
            sym,
            o as int,
            serve_written(o as int, caps.last(), (initial - o / w) as nat, w),
        )
    }
}

/// After any sequence of reads, the session invariant holds at the
/// running total, and the total never exceeds the initial supply in
/// bytes.
pub proof fn lemma_run_inv(initial: nat, w: nat, caps: Seq<nat>)
    requires
        w >= 1,
    ensures
        session_inv(
            initial,
            run_delivered(initial, w, caps),
            (initial - run_delivered(initial, w, caps) / w) as nat,
            w,
        ),
        run_delivered(initial, w, caps) <= initial * w,
    decreases caps.len(),
{
    if caps.len() == 0 {
        lemma_small_mod(0, w);
        assert(0int / (w as int) == 0) by (nonlinear_arith)
            requires
                w >= 1,
        ;
    } else {
        lemma_run_inv(initial, w, caps.drop_last());
        let o = run_delivered(initial, w, caps.drop_last());
        lemma_serve_step(initial, o, (initial - o / w) as nat, caps.last(), w);
    }
    lemma_conservation(
        initial,
        run_delivered(initial, w, caps),
        (initial - run_delivered(initial, w, caps) / w) as nat,
        w,
    );
}

/// Conservation over a whole session: however the reads were sized, a
/// session opened with `initial` symbols never hands out more than
/// `initial * w` bytes.
pub proof fn lemma_run_conservation(initial: nat, w: nat, caps: Seq<nat>)
    requires
        w >= 1,
    ensures
        run_delivered(initial, w, caps) <= initial * w,
{
    lemma_run_inv(initial, w, caps);
}

/// Zero-terminates, over a whole session: once the running total has
/// reached `initial * w`, the next read delivers nothing, whatever its
/// capacity.
pub proof fn lemma_run_zero_terminates(initial: nat, w: nat, caps: Seq<nat>, cap: nat)
    requires
        w >= 1,
        run_delivered(initial, w, caps) == initial * w,
    ensures
        run_delivered(initial, w, caps.push(cap)) == initial * w,
{
    lemma_run_inv(initial, w, caps);
    let o = run_delivered(initial, w, caps);
    lemma_zero_terminates(initial, o, (initial - o / w) as nat, cap, w);
    assert(caps.push(cap).drop_last() =~= caps);
    assert(caps.push(cap).last() == cap);
}

/// Everything a session hands out is one contiguous prefix of the ideal
/// stream: the reads cut it into chunks but never bend its bytes.
pub proof fn lemma_run_output_is_stream_prefix(sym: Seq<u8>, initial: nat, caps: Seq<nat>)
    requires
        symbol_wf(sym),
    ensures
        run_output(sym, initial, caps) == stream_segment(
            sym,
            0,
            run_delivered(initial, sym.len(), caps),
        ),
    decreases caps.len(),
{
    let w = sym.len();
    if caps.len() == 0 {
        assert(run_output(sym, initial, caps) =~= stream_segment(sym, 0, 0));
    } else {
        lemma_run_output_is_stream_prefix(sym, initial, caps.drop_last());
        let o = run_delivered(initial, w, caps.drop_last());
        let wr = serve_written(o as int, caps.last(), (initial - o / w) as nat, w);
        assert(run_output(sym, initial, caps) =~= stream_segment(sym, 0, o + wr));
    }
}

/// Alignment independence: two sessions that started from the same supply
/// and were driven to the same running total hand out byte-for-byte the
/// same concatenated output, however differently their reads were sized.
pub proof fn lemma_alignment_independence(
    sym: Seq<u8>,
    initial: nat,
    caps1: Seq<nat>,
    caps2: Seq<nat>,
)
    requires
        symbol_wf(sym),
        run_delivered(initial, sym.len(), caps1) == run_delivered(initial, sym.len(), caps2),
    ensures
        run_output(sym, initial, caps1) == run_output(sym, initial, caps2),
{
    lemma_run_output_is_stream_prefix(sym, initial, caps1);
    lemma_run_output_is_stream_prefix(sym, initial, caps2);
}

/// A sequence of `n` one-byte reads.
pub open spec fn unit_caps(n: nat) -> Seq<nat> {
    Seq::new(n, |i: int| 1nat)
}

/// One single read whose capacity is the whole supply in bytes drains the
/// session completely.
pub proof fn lemma_single_read_drains(initial: nat, w: nat)
    requires
        w >= 1,
    ensures
        serve_written(0, initial * w, initial, w) == initial * w,
{
    lemma_mod_multiples_basic(initial as int, w as int);
    lemma_small_mod(0, w);
    assert((initial * w) as int / (w as int) == initial) by (nonlinear_arith)
        requires
            w >= 1,
    ;
    assert(whole_symbols(initial * w, initial, w) == initial);
    assert(tail_bytes(initial * w, initial, w) == 0);
    assert(initial * (w as nat) == (initial * w) as nat) by (nonlinear_arith);
}

/// Reading one byte at a time drains the supply byte for byte: after `n`
/// unit reads the session has delivered `n` bytes, up to the supply.
pub proof fn lemma_unit_reads_drain(initial: nat, w: nat, n: nat)
    requires
        w >= 1,
    ensures
        run_delivered(initial, w, unit_caps(n)) == min_nat(n, initial * w),
    decreases n,
{
    if n == 0 {
    } else {
        lemma_unit_reads_drain(initial, w, (n - 1) as nat);
        assert(unit_caps(n).drop_last() =~= unit_caps((n - 1) as nat));
        assert(unit_caps(n).last() == 1nat);
        let o = run_delivered(initial, w, unit_caps((n - 1) as nat));
        lemma_run_inv(initial, w, unit_caps((n - 1) as nat));
        if o < initial * w {
            lemma_progress(initial, o, (initial - o / w) as nat, 1, w);
            lemma_serve_step(initial, o, (initial - o / w) as nat, 1, w);
            assert(serve_written(o as int, 1, (initial - o / w) as nat, w) == 1);
        } else {
            assert(o == initial * w);
            lemma_zero_terminates(initial, o, (initial - o / w) as nat, 1, w);
        }
    }
}

/// Alignment independence in its sharpest form: a session drained one
/// byte at a time hands out exactly the bytes of a session drained by one
/// single full-supply read.
pub proof fn lemma_byte_by_byte_equals_single_read(sym: Seq<u8>, initial: nat)
    requires
        symbol_wf(sym),
    ensures
        run_output(sym, initial, unit_caps(initial * sym.len())) == run_output(
            sym,
            initial,
            seq![initial * sym.len()],
        ),
{
    let w = sym.len();
    lemma_unit_reads_drain(initial, w, initial * w);
    lemma_single_read_drains(initial, w);
    let single = seq![initial * w];
    assert(single.drop_last() =~= Seq::<nat>::empty());
    assert(run_delivered(initial, w, single.drop_last()) == 0);
    lemma_small_mod(0, w);
    assert(0int / (w as int) == 0) by (nonlinear_arith)
        requires
            w >= 1,
    ;
    assert(run_delivered(initial, w, single) == initial * w);
    lemma_alignment_independence(sym, initial, unit_caps(initial * w), single);
}

} // verus!
