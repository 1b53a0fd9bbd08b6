//! The growable byte buffer that one readable event drains into, with
//! its fill cursor and fixed-increment growth policy.

use vstd::prelude::*;

use crate::events::{ErrKind, ReadOutcome, ReadStep};

verus! {

/// Capacity a fresh read buffer starts with.
pub const INITIAL_CAPACITY: usize = 4096;

/// Fixed increment by which an exactly-full buffer grows.
pub const GROWTH_INCREMENT: usize = 1024;

/// Mathematical shape of a read buffer: the backing bytes and the fill
/// cursor.  The first `filled` bytes are the data received so far in
/// the current handling pass.
#[verifier::ext_equal]
pub struct BufModel {
    pub bytes: Seq<u8>,
    pub filled: int,
}

/// Well-formed: the cursor lies strictly inside the backing store, so
/// the unfilled tail is never empty and a read of zero bytes can only
/// mean end of stream, never a full buffer.
pub open spec fn buf_wf(m: BufModel) -> bool {
    0 <= m.filled < m.bytes.len()
}

/// One successful read of `n` bytes into the unfilled tail: the cursor
/// advances, and if the buffer became exactly full it grows by the
/// fixed increment (zero-filled), keeping every byte already present.
pub open spec fn buf_record(m: BufModel, n: int) -> BufModel {
    let filled = m.filled + n;
    if filled == m.bytes.len() {
        BufModel { bytes: m.bytes + Seq::new(GROWTH_INCREMENT as nat, |i: int| 0u8), filled }
    } else {
        BufModel { bytes: m.bytes, filled }
    }
}

/// The decision taken on one read outcome: more data or an interrupt
/// keep the drain going, would-block ends it for this event, a zero
/// byte read finishes the connection, anything else closes it as
/// failed.
pub open spec fn read_decision(o: ReadOutcome) -> ReadStep {
    match o {
        ReadOutcome::Data(_) => ReadStep::Continue,
        ReadOutcome::Eof => ReadStep::Finished,
        ReadOutcome::Failed(k) => match k {
            ErrKind::WouldBlock => ReadStep::Stop,
            ErrKind::Interrupted => ReadStep::Continue,
            ErrKind::Other => ReadStep::Close,
        },
    }
}

/// The buffer one readable event accumulates into.  The event loop
/// reads directly into the unfilled tail `bytes[filled..]` and reports
/// every outcome through [`ReadBuffer::apply_read`]; the buffer is not
/// kept across events.
pub struct ReadBuffer {
    pub bytes: Vec<u8>,
    pub filled: usize,
}

impl ReadBuffer {
    /// The buffer as its mathematical model.
    pub open spec fn model(self) -> BufModel {
        BufModel { bytes: self.bytes@, filled: self.filled as int }
    }

    /// Well-formedness of the live buffer.
    pub open spec fn wf(self) -> bool {
        buf_wf(self.model())
    }

    /// The bytes received so far in this pass.
    pub open spec fn contents(self) -> Seq<u8> {
        self.bytes@.subrange(0, self.filled as int)
    }

    /// A fresh zeroed buffer of the initial capacity, nothing filled.
    pub fn new() -> (b: ReadBuffer)
        ensures
            b.wf(),
            b.filled == 0,
            b.bytes@ == Seq::new(INITIAL_CAPACITY as nat, |i: int| 0u8),
    {
        ReadBuffer { bytes: zeros(INITIAL_CAPACITY), filled: 0 }
    }

    /// Record the outcome of one read into the unfilled tail and return
    /// the decision for the drain loop.  On delivered data the cursor
    /// advances and an exactly-full buffer grows by the fixed
    /// increment; every other outcome leaves the buffer untouched.
    pub fn apply_read(&mut self, outcome: &ReadOutcome) -> (step: ReadStep)
        requires
            old(self).wf(),
            *outcome matches ReadOutcome::Data(n) ==> 1 <= n
                && n <= old(self).bytes@.len() - old(self).filled,
        ensures
            final(self).wf(),
            step == read_decision(*outcome),
            *outcome matches ReadOutcome::Data(n) ==> final(self).model() == buf_record(
                old(self).model(),
                n as int,
            ),
            !(*outcome is Data) ==> *final(self) == *old(self),
            old(self).bytes@.is_prefix_of(final(self).bytes@),
    {
        match *outcome {
            ReadOutcome::Data(n) => {
                let cap = self.bytes.len();
                self.filled = self.filled + n;
                if self.filled == cap {
                    grow(&mut self.bytes);
                }
                proof {
                    assert(self.model() =~= buf_record(old(self).model(), n as int));
                    assert(old(self).bytes@.is_prefix_of(self.bytes@)) by {
                        assert(old(self).bytes@.subrange(0, old(self).bytes@.len() as int)
                            =~= old(self).bytes@);
                    }
                }
                ReadStep::Continue
            },
            ReadOutcome::Eof => ReadStep::Finished,
            ReadOutcome::Failed(k) => {
                proof {
                    assert(old(self).bytes@.subrange(0, old(self).bytes@.len() as int)
                        =~= old(self).bytes@);
                }
                match k {
                    ErrKind::WouldBlock => ReadStep::Stop,
                    ErrKind::Interrupted => ReadStep::Continue,
                    ErrKind::Other => ReadStep::Close,
                }
            },
        }
    }
}

/// Whether a sequence of read sizes is possible from `m`: each read
/// delivers at least one byte and at most the unfilled tail available
/// at that point.
pub open spec fn valid_reads(m: BufModel, ns: Seq<int>) -> bool
    decreases ns.len(),
{
    ns.len() == 0 || (1 <= ns[0] <= m.bytes.len() - m.filled && valid_reads(
        buf_record(m, ns[0]),
        ns.drop_first(),
    ))
}

/// The buffer after a whole sequence of successful reads.
pub open spec fn record_all(m: BufModel, ns: Seq<int>) -> BufModel
    decreases ns.len(),
{
    if ns.len() == 0 {
        m
    } else {
        record_all(buf_record(m, ns[0]), ns.drop_first())
    }
}

/// The total number of bytes a sequence of reads delivers.
pub open spec fn total(ns: Seq<int>) -> int
    decreases ns.len(),
{
    if ns.len() == 0 {
        0
    } else {
        ns[0] + total(ns.drop_first())
    }
}

/// However much data arrives before a would-block — across any number
/// of successful reads in one handling pass — the buffer only ever
/// grows, in whole fixed increments, and never loses a byte already
/// present: every byte of the original backing store keeps its place,
/// and the fill cursor advances by exactly the total delivered.
pub proof fn lemma_buffer_grows_monotonically(m: BufModel, ns: Seq<int>)
    requires
        buf_wf(m),
        valid_reads(m, ns),
    ensures
        buf_wf(record_all(m, ns)),
        record_all(m, ns).filled == m.filled + total(ns),
        m.bytes.len() <= record_all(m, ns).bytes.len(),
        forall|i: int| 0 <= i < m.bytes.len() ==> record_all(m, ns).bytes[i] == m.bytes[i],
        exists|g: nat|
            record_all(m, ns).bytes.len() == m.bytes.len() + #[trigger] (g
                * GROWTH_INCREMENT),
    decreases ns.len(),
{
    if ns.len() == 0 {
        assert(record_all(m, ns).bytes.len() == m.bytes.len() + (0 as nat) * GROWTH_INCREMENT);
    } else {
        let m1 = buf_record(m, ns[0]);
        assert(buf_wf(m1));
        lemma_buffer_grows_monotonically(m1, ns.drop_first());
        assert forall|i: int| 0 <= i < m.bytes.len() implies record_all(m, ns).bytes[i]
            == m.bytes[i] by {
            assert(m1.bytes[i] == m.bytes[i]);
            assert(record_all(m1, ns.drop_first()).bytes[i] == m1.bytes[i]);
        }
        let g1 = choose|g: nat|
            record_all(m1, ns.drop_first()).bytes.len() == m1.bytes.len() + #[trigger] (g
                * GROWTH_INCREMENT);
        if m.filled + ns[0] == m.bytes.len() {
            assert(record_all(m, ns).bytes.len() == m.bytes.len() + ((g1 + 1) as nat)
                * GROWTH_INCREMENT) by {
                assert(m1.bytes.len() == m.bytes.len() + GROWTH_INCREMENT);
                assert(((g1 + 1) as nat) * GROWTH_INCREMENT == g1 * GROWTH_INCREMENT
                    + GROWTH_INCREMENT) by (nonlinear_arith);
            }
        } else {
            assert(record_all(m, ns).bytes.len() == m.bytes.len() + g1 * GROWTH_INCREMENT);
        }
    }
}

/// A vector of `n` zero bytes.
fn zeros(n: usize) -> (v: Vec<u8>)
    ensures
        v@ == Seq::new(n as nat, |i: int| 0u8),
{
    let mut v: Vec<u8> = Vec::new();
    while v.len() < n
        invariant
            v@.len() <= n,
            v@ == Seq::new(v@.len(), |i: int| 0u8),
        decreases n - v@.len(),
    {
        v.push(0u8);
        proof {
            assert(v@ =~= Seq::new(v@.len(), |i: int| 0u8));
        }
    }
    proof {
        assert(v@ =~= Seq::new(n as nat, |i: int| 0u8));
    }
    v
}

/// Append the fixed growth increment of zero bytes.
fn grow(bytes: &mut Vec<u8>)
    ensures
        final(bytes)@ == old(bytes)@ + Seq::new(GROWTH_INCREMENT as nat, |i: int| 0u8),
{
    let mut k: usize = 0;
    while k < GROWTH_INCREMENT
        invariant
            k <= GROWTH_INCREMENT,
            bytes@ == old(bytes)@ + Seq::new(k as nat, |i: int| 0u8),
        decreases GROWTH_INCREMENT - k,
    {
        bytes.push(0u8);
        k = k + 1;
        proof {
            assert(bytes@ =~= old(bytes)@ + Seq::new(k as nat, |i: int| 0u8));
        }
    }
}

} // verus!
