//! The read-serving algorithm.
//!
//! A read request carries an absolute stream offset and a destination
//! capacity; no per-session position is kept, the place inside the current
//! symbol is recomputed from the offset on every call. The serve functions
//! return exactly the bytes to hand to the destination: a slice of the
//! ideal stream (the symbol repeated forever) starting at the request's
//! offset. The bounded variants also charge the supply, exactly once per
//! symbol whose last byte they emit. An offset of any 64-bit size is
//! accepted: only its remainder modulo the symbol width is ever needed,
//! so no offset arithmetic can overflow.

use crate::model::{
    lemma_stream_block, lemma_stream_in_symbol, phase_of, serve_charge, serve_written,
    shared_len_ok, shared_plan_len, straddle_ok, stream_byte, stream_segment, symbol_wf,
};
use crate::supply::{SharedCounter, SupplyCounter};
use vstd::arithmetic::div_mod::{
    lemma_fundamental_div_mod, lemma_fundamental_div_mod_converse, lemma_mod_multiples_basic,
    lemma_small_mod,
};
use vstd::arithmetic::mul::lemma_mul_inequality;
use vstd::prelude::*;

verus! {

/// Appends `symbol[from .. from + len]` to `out`.
fn emit_symbol_range(out: &mut Vec<u8>, symbol: &[u8], from: usize, len: usize)
    requires
        from + len <= symbol@.len(),
    ensures
        final(out)@.len() == old(out)@.len() + len,
        forall|k: int| 0 <= k < old(out)@.len() ==> final(out)@[k] == old(out)@[k],
        forall|i: int|
            0 <= i < len ==> #[trigger] final(out)@[old(out)@.len() + i] == symbol@[from + i],
{
    let slen = symbol.len();
    let mut i: usize = 0;
    while i < len
        invariant
            from + len <= slen,
            slen == symbol@.len(),
            i <= len,
            out@.len() == old(out)@.len() + i,
            forall|k: int| 0 <= k < old(out)@.len() ==> out@[k] == old(out)@[k],
            forall|k: int| 0 <= k < i ==> #[trigger] out@[old(out)@.len() + k] == symbol@[from + k],
        decreases len - i,
    {
        let b = symbol[from + i];
        out.push(b);
        i = i + 1;
    }
}

/// Appends `n` whole copies of the symbol to `out`.
fn emit_whole_symbols(out: &mut Vec<u8>, symbol: &[u8], n: usize)
    requires
        symbol_wf(symbol@),
    ensures
        final(out)@.len() == old(out)@.len() + n * symbol@.len(),
        forall|k: int| 0 <= k < old(out)@.len() ==> final(out)@[k] == old(out)@[k],
        forall|j: int|
            0 <= j < n * symbol@.len() ==> #[trigger] final(out)@[old(out)@.len() + j] == symbol@[j
                % (symbol@.len() as int)],
{
    let ghost base = out@.len() as int;
    let ghost w = symbol@.len() as int;
    let mut q: usize = 0;
    while q < n
        invariant
            symbol_wf(symbol@),
            q <= n,
            base == old(out)@.len(),
            w == symbol@.len(),
            out@.len() == old(out)@.len() + q * symbol@.len(),
            forall|k: int| 0 <= k < old(out)@.len() ==> out@[k] == old(out)@[k],
            forall|j: int| 0 <= j < q * w ==> #[trigger] out@[base + j] == symbol@[j % w],
        decreases n - q,
    {
        let ghost qq = q as int;
        let ghost done = qq * w;
        emit_symbol_range(out, symbol, 0, symbol.len());
        q = q + 1;
        proof {
            assert((qq + 1) * w == qq * w + w) by (nonlinear_arith);
            assert(q * w == done + w);
            assert forall|j: int| 0 <= j < q * w implies #[trigger] out@[base + j] == symbol@[j
                % w] by {
                if j >= done {
                    assert(out@[base + done + (j - done)] == symbol@[0 + (j - done)]);
                    lemma_fundamental_div_mod_converse(j, w, qq, j - done);
                }
            }
        }
    }
}

/// Serves a read against a private supply counter.
///
/// The result is the slice of the ideal stream that starts at `offset`;
/// its length is exactly `serve_written` of the request and the supply,
/// and the counter is charged exactly `serve_charge` symbols: one for a
/// straddled symbol finished here, one for each whole symbol emitted here,
/// and none for a trailing partial symbol, which a later request finishes
/// and charges.
pub fn serve_counted(symbol: &[u8], offset: u64, capacity: usize, counter: &mut SupplyCounter) -> (r:
    Vec<u8>)
    requires
        symbol_wf(symbol@),
        straddle_ok(offset as int, old(counter).remaining(), symbol@.len()),
    ensures
        r@.len() == serve_written(
            offset as int,
            capacity as nat,
            old(counter).remaining(),
            symbol@.len(),
        ),
        serve_charge(offset as int, capacity as nat, old(counter).remaining(), symbol@.len())
            <= old(counter).remaining(),
        final(counter).remaining() == old(counter).remaining() - serve_charge(
            offset as int,
            capacity as nat,
            old(counter).remaining(),
            symbol@.len(),
        ),
        r@ == stream_segment(symbol@, offset as int, r@.len()),
{
    let ghost o = offset as int;
    let ghost w = symbol@.len() as int;
    let width = symbol.len();
    let phase = (offset % (width as u64)) as usize;
    proof {
        assert(phase == phase_of(o, w as nat));
    }
    let mut out: Vec<u8> = Vec::new();
    let mut budget = capacity;

    if phase != 0 {
        // Finish the symbol a previous, shorter read left straddled.
        let need = width - phase;
        let take = if budget < need {
            budget
        } else {
            need
        };
        emit_symbol_range(&mut out, symbol, phase, take);
        proof {
            assert forall|j: int| 0 <= j < out@.len() implies out@[j] == stream_byte(
                symbol@,
                o + j,
            ) by {
                assert(out@[0 + j] == symbol@[phase + j]);
                lemma_stream_in_symbol(symbol@, o, j);
            }
        }
        if take < need {
            // Capacity ran out before the symbol was complete: it stays
            // straddled and uncharged.
            proof {
                assert(out@ =~= stream_segment(symbol@, o, out@.len()));
            }
            return out;
        }
        budget = budget - need;
        // The straddled symbol is now fully delivered: charge it, exactly
        // once, here at completion.
        counter.decrement_by(1);
    }
    let ghost fin = out@.len() as int;
    proof {
        lemma_fundamental_div_mod(o, w);
        if phase != 0 {
            assert(fin == w - o % w);
            assert(o + fin == (o / w + 1) * w) by (nonlinear_arith)
                requires
                    o == w * (o / w) + o % w,
                    fin == w - o % w,
            ;
            lemma_mod_multiples_basic(o / w + 1, w);
        } else {
            assert(o % w == 0);
            assert(o + fin == (o / w) * w) by (nonlinear_arith)
                requires
                    o == w * (o / w) + o % w,
                    o % w == 0,
                    fin == 0,
            ;
            lemma_mod_multiples_basic(o / w, w);
        }
        assert((o + fin) % w == 0);
    }
    // Emit whole symbols: as many as the capacity holds, clamped to the
    // remaining supply.
    let avail = counter.load();
    let quota = budget / width;
    let whole = if quota < avail {
        quota
    } else {
        avail
    };
    emit_whole_symbols(&mut out, symbol, whole);
    counter.decrement_by(whole);
    proof {
        assert forall|j: int| fin <= j < out@.len() implies out@[j] == stream_byte(
            symbol@,
            o + j,
        ) by {
            assert(out@[fin + (j - fin)] == symbol@[(j - fin) % w]);
            lemma_stream_block(symbol@, o + fin, j - fin);
        }
    }
    // Emit the leading bytes of one further symbol if the capacity leaves
    // room for less than a whole one and the supply still backs one. That
    // symbol is intentionally left straddled: the next request finishes
    // and charges it.
    let rem = budget % width;
    if rem > 0 && counter.load() > 0 {
        let ghost base2 = out@.len() as int;
        proof {
            lemma_fundamental_div_mod(o + fin, w);
            let m = (o + fin) / w;
            assert(o + fin == w * m);
            assert((m + whole as int) * w == m * w + (whole as int) * w) by (nonlinear_arith);
            assert(o + base2 == (m + whole as int) * w);
            lemma_mod_multiples_basic(m + whole as int, w);
            assert((o + base2) % w == 0);
        }
        emit_symbol_range(&mut out, symbol, 0, rem);
        proof {
            assert forall|j: int| base2 <= j < out@.len() implies out@[j] == stream_byte(
                symbol@,
                o + j,
            ) by {
                assert(out@[base2 + (j - base2)] == symbol@[0 + (j - base2)]);
                lemma_small_mod((j - base2) as nat, w as nat);
                lemma_stream_block(symbol@, o + base2, j - base2);
            }
        }
    }
    proof {
        assert(out@ =~= stream_segment(symbol@, o, out@.len()));
    }
    out
}

/// Serves a read with no supply counter: every request is fully served,
/// so the result holds exactly `capacity` bytes of the ideal stream. In
/// particular a request with nonzero capacity never reads as end of
/// stream.
pub fn serve_unbounded(symbol: &[u8], offset: u64, capacity: usize) -> (r: Vec<u8>)
    requires
        symbol_wf(symbol@),
    ensures
        r@.len() == capacity,
        r@ == stream_segment(symbol@, offset as int, capacity as nat),
{
    let ghost o = offset as int;
    let ghost w = symbol@.len() as int;
    let width = symbol.len();
    let phase = (offset % (width as u64)) as usize;
    proof {
        assert(phase == phase_of(o, w as nat));
    }
    let mut out: Vec<u8> = Vec::new();
    let mut budget = capacity;

    if phase != 0 {
        // Finish the straddled symbol, as far as the capacity allows.
        let need = width - phase;
        let take = if budget < need {
            budget
        } else {
            need
        };
        emit_symbol_range(&mut out, symbol, phase, take);
        proof {
            assert forall|j: int| 0 <= j < out@.len() implies out@[j] == stream_byte(
                symbol@,
                o + j,
            ) by {
                assert(out@[0 + j] == symbol@[phase + j]);
                lemma_stream_in_symbol(symbol@, o, j);
            }
        }
        if take < need {
            proof {
                assert(out@ =~= stream_segment(symbol@, o, out@.len()));
            }
            return out;
        }
        budget = budget - need;
    }
    let ghost fin = out@.len() as int;
    proof {
        lemma_fundamental_div_mod(o, w);
        if phase != 0 {
            assert(fin == w - o % w);
            assert(o + fin == (o / w + 1) * w) by (nonlinear_arith)
                requires
                    o == w * (o / w) + o % w,
                    fin == w - o % w,
            ;
            lemma_mod_multiples_basic(o / w + 1, w);
        } else {
            assert(o % w == 0);
            assert(o + fin == (o / w) * w) by (nonlinear_arith)
                requires
                    o == w * (o / w) + o % w,
                    o % w == 0,
                    fin == 0,
            ;
            lemma_mod_multiples_basic(o / w, w);
        }
        assert((o + fin) % w == 0);
    }
    // Emit whole symbols, then the leading bytes of one more: with no
    // counter there is nothing to clamp to and nothing to charge.
    let whole = budget / width;
    emit_whole_symbols(&mut out, symbol, whole);
    proof {
        assert forall|j: int| fin <= j < out@.len() implies out@[j] == stream_byte(
            symbol@,
            o + j,
        ) by {
            assert(out@[fin + (j - fin)] == symbol@[(j - fin) % w]);
            lemma_stream_block(symbol@, o + fin, j - fin);
        }
    }
    let rem = budget % width;
    if rem > 0 {
        let ghost base2 = out@.len() as int;
        proof {
            lemma_fundamental_div_mod(o + fin, w);
            let m = (o + fin) / w;
            assert(o + fin == w * m);
            assert((m + whole as int) * w == m * w + (whole as int) * w) by (nonlinear_arith);
            assert(o + base2 == (m + whole as int) * w);
            lemma_mod_multiples_basic(m + whole as int, w);
            assert((o + base2) % w == 0);
        }
        emit_symbol_range(&mut out, symbol, 0, rem);
        proof {
            assert forall|j: int| base2 <= j < out@.len() implies out@[j] == stream_byte(
                symbol@,
                o + j,
            ) by {
                assert(out@[base2 + (j - base2)] == symbol@[0 + (j - base2)]);
                lemma_small_mod((j - base2) as nat, w as nat);
                lemma_stream_block(symbol@, o + base2, j - base2);
            }
        }
    }
    proof {
        lemma_fundamental_div_mod(budget as int, w);
        assert(w * (budget as int / w) == (budget as int / w) * w) by (nonlinear_arith);
        assert(out@.len() == capacity);
        assert(out@ =~= stream_segment(symbol@, o, capacity as nat));
    }
    out
}

/// Serves a read against the shared supply counter.
///
/// Whole symbols are emitted only after an atomic reservation granted
/// them, so no interleaving of concurrent readers can make the stream
/// over-deliver: every emitted whole symbol was subtracted from the
/// counter before it was written. How much the reservation grants depends
/// on the other sessions, so the length is stated for some granted amount
/// never above what was asked (`shared_len_ok`); the content is still
/// exactly the ideal stream at `offset`. A straddled symbol finished here
/// is charged by a reservation of one; if the racing sessions have
/// meanwhile drained the counter, the charge is lost rather than taken
/// below zero.
pub fn serve_shared(symbol: &[u8], offset: u64, capacity: usize, counter: &SharedCounter) -> (r:
    Vec<u8>)
    requires
        symbol_wf(symbol@),
    ensures
        r@.len() <= capacity,
        r@ == stream_segment(symbol@, offset as int, r@.len()),
        shared_len_ok(offset as int, capacity as nat, symbol@.len(), r@.len()),
{
    let ghost o = offset as int;
    let ghost w = symbol@.len() as int;
    let width = symbol.len();
    let phase = (offset % (width as u64)) as usize;
    proof {
        assert(phase == phase_of(o, w as nat));
    }
    let mut out: Vec<u8> = Vec::new();
    let mut budget = capacity;

    if phase != 0 {
        // Finish the straddled symbol, as far as the capacity allows.
        let need = width - phase;
        let take = if budget < need {
            budget
        } else {
            need
        };
        emit_symbol_range(&mut out, symbol, phase, take);
        proof {
            assert forall|j: int| 0 <= j < out@.len() implies out@[j] == stream_byte(
                symbol@,
                o + j,
            ) by {
                assert(out@[0 + j] == symbol@[phase + j]);
                lemma_stream_in_symbol(symbol@, o, j);
            }
        }
        if take < need {
            proof {
                assert(out@ =~= stream_segment(symbol@, o, out@.len()));
            }
            return out;
        }
        budget = budget - need;
        // The straddled symbol is complete: charge it now. Under a race
        // the counter may already be empty; the reservation then grants
        // nothing and the charge is dropped, never taken below zero.
        let _ = counter.take(1);
    }
    let ghost fin = out@.len() as int;
    proof {
        lemma_fundamental_div_mod(o, w);
        if phase != 0 {
            assert(fin == w - o % w);
            assert(o + fin == (o / w + 1) * w) by (nonlinear_arith)
                requires
                    o == w * (o / w) + o % w,
                    fin == w - o % w,
            ;
            lemma_mod_multiples_basic(o / w + 1, w);
        } else {
            assert(o % w == 0);
            assert(o + fin == (o / w) * w) by (nonlinear_arith)
                requires
                    o == w * (o / w) + o % w,
                    o % w == 0,
                    fin == 0,
            ;
            lemma_mod_multiples_basic(o / w, w);
        }
        assert((o + fin) % w == 0);
    }
    // Reserve first, then emit exactly what was granted: the reverse
    // order could emit symbols that were never backed by supply.
    let want = budget / width;
    let granted = counter.take(want);
    emit_whole_symbols(&mut out, symbol, granted);
    proof {
        assert forall|j: int| fin <= j < out@.len() implies out@[j] == stream_byte(
            symbol@,
            o + j,
        ) by {
            assert(out@[fin + (j - fin)] == symbol@[(j - fin) % w]);
            lemma_stream_block(symbol@, o + fin, j - fin);
        }
        lemma_fundamental_div_mod(budget as int, w);
        lemma_mul_inequality(granted as int, want as int, w);
    }
    // A trailing partial symbol is emitted only when the capacity, not
    // the supply, cut the whole symbols short and the counter still shows
    // a symbol to back it.
    let rem = budget % width;
    let mut tail_backed = false;
    if granted == want && rem > 0 {
        tail_backed = counter.available_hint() > 0;
        if tail_backed {
            let ghost base2 = out@.len() as int;
            proof {
                lemma_fundamental_div_mod(o + fin, w);
                let m = (o + fin) / w;
                assert(o + fin == w * m);
                assert((m + granted as int) * w == m * w + (granted as int) * w)
                    by (nonlinear_arith);
                assert(o + base2 == (m + granted as int) * w);
                lemma_mod_multiples_basic(m + granted as int, w);
                assert((o + base2) % w == 0);
            }
            emit_symbol_range(&mut out, symbol, 0, rem);
            proof {
                assert forall|j: int| base2 <= j < out@.len() implies out@[j] == stream_byte(
                    symbol@,
                    o + j,
                ) by {
                    assert(out@[base2 + (j - base2)] == symbol@[0 + (j - base2)]);
                    lemma_small_mod((j - base2) as nat, w as nat);
                    lemma_stream_block(symbol@, o + base2, j - base2);
                }
            }
        }
    }
    proof {
        assert(w * (budget as int / w) == (budget as int / w) * w) by (nonlinear_arith);
        assert(out@.len() <= capacity);
        assert(out@ =~= stream_segment(symbol@, o, out@.len()));
        let tb = granted == want && rem > 0 && tail_backed;
        assert(granted as nat <= (capacity - fin) as nat / (w as nat) && out@.len()
            == shared_plan_len(o, capacity as nat, granted as nat, tb, w as nat));
    }
    out
}

/// The supply-lifetime configuration of one open handle: no counter, a
/// private counter created with the session, or the shared counter handed
/// down from the registration that created it.
pub enum Supply<'a> {
    /// No counter: every request is fully served.
    Unbounded,
    /// A counter created fresh for this session and private to it.
    Counted(SupplyCounter),
    /// The shared counter, consumed jointly with all other open sessions.
    Shared(&'a SharedCounter),
}

/// One open consumer handle. It carries nothing but its hold on the
/// supply: the position inside the current symbol is recomputed from the
/// absolute offset the transport submits with every read.
pub struct Session<'a> {
    pub supply: Supply<'a>,
}

impl<'a> Session<'a> {
    /// Opens a session that is never exhausted.
    pub fn open_unbounded() -> (s: Session<'a>)
        ensures
            s.supply is Unbounded,
    {
        Session { supply: Supply::Unbounded }
    }

    /// Opens a session with a freshly created private supply of `initial`
    /// whole symbols.
    pub fn open_counted(initial: usize) -> (s: Session<'a>)
        ensures
            s.supply is Counted,
            s.supply->Counted_0.remaining() == initial,
    {
        Session { supply: Supply::Counted(SupplyCounter::new(initial)) }
    }

    /// Opens a session bound to the shared supply counter handed down
    /// from the registration that created it.
    pub fn open_shared(counter: &'a SharedCounter) -> (s: Session<'a>)
        ensures
            s.supply == Supply::Shared(counter),
    {
        Session { supply: Supply::Shared(counter) }
    }

    /// Serves one read request, per the session's supply configuration.
    pub fn serve(&mut self, symbol: &[u8], offset: u64, capacity: usize) -> (r: Vec<u8>)
        requires
            symbol_wf(symbol@),
            old(self).supply is Counted ==> straddle_ok(
                offset as int,
                old(self).supply->Counted_0.remaining(),
                symbol@.len(),
            ),
        ensures
            r@ == stream_segment(symbol@, offset as int, r@.len()),
            old(self).supply is Unbounded ==> final(self).supply is Unbounded && r@.len()
                == capacity,
            old(self).supply is Counted ==> final(self).supply is Counted && r@.len()
                == serve_written(
                offset as int,
                capacity as nat,
                old(self).supply->Counted_0.remaining(),
                symbol@.len(),
            ) && final(self).supply->Counted_0.remaining() == old(
                self,
            ).supply->Counted_0.remaining() - serve_charge(
                offset as int,
                capacity as nat,
                old(self).supply->Counted_0.remaining(),
                symbol@.len(),
            ),
            old(self).supply is Shared ==> final(self).supply == old(self).supply && r@.len()
                <= capacity && shared_len_ok(offset as int, capacity as nat, symbol@.len(), r@.len()),
    {
        match &mut self.supply {
            Supply::Unbounded => serve_unbounded(symbol, offset, capacity),
            Supply::Counted(counter) => serve_counted(symbol, offset, capacity, counter),
            Supply::Shared(counter) => serve_shared(symbol, offset, capacity, counter),
        }
    }

    /// Closes the session, releasing its hold on the supply: a private
    /// counter is destroyed with it, the shared counter survives for the
    /// sessions that remain open.
    pub fn close(self) {
    }
}

} // verus!
