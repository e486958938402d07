//! CIGAR operations, their consumption behaviour, and the splitting rule that
//! cuts one operation at an internal offset when it crosses a chunk boundary.

use vstd::prelude::*;

verus! {

/// One CIGAR operation: an alignment step kind carrying its length in bases.
#[derive(Clone, Copy, Debug, PartialEq, Eq)]
pub enum CigarOp {
    Match(u32),
    Ins(u32),
    Del(u32),
    RefSkip(u32),
    SoftClip(u32),
    HardClip(u32),
    Pad(u32),
    Equal(u32),
    Diff(u32),
}

/// Length of the operation, in bases.
pub open spec fn op_len(op: CigarOp) -> nat {
    match op {
        CigarOp::Match(x) => x as nat,
        CigarOp::Ins(x) => x as nat,
        CigarOp::Del(x) => x as nat,
        CigarOp::RefSkip(x) => x as nat,
        CigarOp::SoftClip(x) => x as nat,
        CigarOp::HardClip(x) => x as nat,
        CigarOp::Pad(x) => x as nat,
        CigarOp::Equal(x) => x as nat,
        CigarOp::Diff(x) => x as nat,
    }
}

/// Does the operation advance the read-base (query) cursor?
pub open spec fn consumes_query(op: CigarOp) -> bool {
    match op {
        CigarOp::Match(_) => true,
        CigarOp::Ins(_) => true,
        CigarOp::SoftClip(_) => true,
        CigarOp::Equal(_) => true,
        CigarOp::Diff(_) => true,
        _ => false,
    }
}

/// Does the operation advance the reference-base cursor?
pub open spec fn consumes_reference(op: CigarOp) -> bool {
    match op {
        CigarOp::Match(_) => true,
        CigarOp::Del(_) => true,
        CigarOp::RefSkip(_) => true,
        CigarOp::Equal(_) => true,
        CigarOp::Diff(_) => true,
        _ => false,
    }
}

/// Query bases the operation consumes.
pub open spec fn op_query(op: CigarOp) -> nat {
    if consumes_query(op) {
        op_len(op)
    } else {
        0
    }
}

/// Reference bases the operation consumes.
pub open spec fn op_ref(op: CigarOp) -> nat {
    if consumes_reference(op) {
        op_len(op)
    } else {
        0
    }
}

/// The same kind of operation with a different length.
pub open spec fn with_len(op: CigarOp, n: u32) -> CigarOp {
    match op {
        CigarOp::Match(_) => CigarOp::Match(n),
        CigarOp::Ins(_) => CigarOp::Ins(n),
        CigarOp::Del(_) => CigarOp::Del(n),
        CigarOp::RefSkip(_) => CigarOp::RefSkip(n),
        CigarOp::SoftClip(_) => CigarOp::SoftClip(n),
        CigarOp::HardClip(_) => CigarOp::HardClip(n),
        CigarOp::Pad(_) => CigarOp::Pad(n),
        CigarOp::Equal(_) => CigarOp::Equal(n),
        CigarOp::Diff(_) => CigarOp::Diff(n),
    }
}

/// Total query bases a CIGAR consumes.
pub open spec fn query_len(ops: Seq<CigarOp>) -> nat
    decreases ops.len(),
{
    if ops.len() == 0 {
        0
    } else {
        op_query(ops[0]) + query_len(ops.drop_first())
    }
}

/// Total reference bases a CIGAR consumes.
pub open spec fn ref_len(ops: Seq<CigarOp>) -> nat
    decreases ops.len(),
{
    if ops.len() == 0 {
        0
    } else {
        op_ref(ops[0]) + ref_len(ops.drop_first())
    }
}

pub proof fn lemma_query_len_concat(a: Seq<CigarOp>, b: Seq<CigarOp>)
    ensures
        query_len(a + b) == query_len(a) + query_len(b),
    decreases a.len(),
{
    if a.len() == 0 {
        assert(a + b =~= b);
    } else {
        assert((a + b).drop_first() =~= a.drop_first() + b);
        lemma_query_len_concat(a.drop_first(), b);
    }
}

pub proof fn lemma_ref_len_concat(a: Seq<CigarOp>, b: Seq<CigarOp>)
    ensures
        ref_len(a + b) == ref_len(a) + ref_len(b),
    decreases a.len(),
{
    if a.len() == 0 {
        assert(a + b =~= b);
    } else {
        assert((a + b).drop_first() =~= a.drop_first() + b);
        lemma_ref_len_concat(a.drop_first(), b);
    }
}

pub proof fn lemma_query_len_push(s: Seq<CigarOp>, op: CigarOp)
    ensures
        query_len(s.push(op)) == query_len(s) + op_query(op),
{
    assert(s.push(op) =~= s + seq![op]);
    lemma_query_len_concat(s, seq![op]);
    assert(seq![op].drop_first() =~= Seq::<CigarOp>::empty());
    assert(query_len(seq![op]) == op_query(op) + query_len(seq![op].drop_first()));
}

pub proof fn lemma_ref_len_push(s: Seq<CigarOp>, op: CigarOp)
    ensures
        ref_len(s.push(op)) == ref_len(s) + op_ref(op),
{
    assert(s.push(op) =~= s + seq![op]);
    lemma_ref_len_concat(s, seq![op]);
    assert(seq![op].drop_first() =~= Seq::<CigarOp>::empty());
    assert(ref_len(seq![op]) == op_ref(op) + ref_len(seq![op].drop_first()));
}

/// Result of offering one operation a bounded amount of chunk room: the part
/// that fits, the remainder that does not, and what the fitting part consumes.
pub struct SplitCigar {
    pub left: CigarOp,
    pub right: Option<CigarOp>,
    pub query_consumed: u32,
    pub ref_consumed: u32,
}

/// Splitting rule: a query-consuming operation longer than the available room
/// is cut in two at the room boundary; every other operation is kept whole.
pub open spec fn spec_consume(op: CigarOp, room: u32) -> SplitCigar {
    if consumes_query(op) && op_len(op) > room {
        SplitCigar {
            left: with_len(op, room),
            right: Some(with_len(op, (op_len(op) - room) as u32)),
            query_consumed: room,
            ref_consumed: if consumes_reference(op) {
                room
            } else {
                0
            },
        }
    } else {
        SplitCigar {
            left: op,
            right: None,
            query_consumed: if consumes_query(op) {
                op_len(op) as u32
            } else {
                0
            },
            ref_consumed: if consumes_reference(op) {
                op_len(op) as u32
            } else {
                0
            },
        }
    }
}

/// Splits one CIGAR operation against the query room still available in the
/// current chunk.
pub fn consume_cigar(op: CigarOp, room: u32) -> (r: SplitCigar)
    ensures
        r == spec_consume(op, room),
{
    match op {
        CigarOp::Match(x) => {
            if room < x {
                SplitCigar {
                    left: CigarOp::Match(room),
                    right: Some(CigarOp::Match(x - room)),
                    query_consumed: room,
                    ref_consumed: room,
                }
            } else {
                SplitCigar { left: op, right: None, query_consumed: x, ref_consumed: x }
            }
        },
        CigarOp::Equal(x) => {
            if room < x {
                SplitCigar {
                    left: CigarOp::Equal(room),
                    right: Some(CigarOp::Equal(x - room)),
                    query_consumed: room,
                    ref_consumed: room,
                }
            } else {
                SplitCigar { left: op, right: None, query_consumed: x, ref_consumed: x }
            }
        },
        CigarOp::Diff(x) => {
            if room < x {
                SplitCigar {
                    left: CigarOp::Diff(room),
                    right: Some(CigarOp::Diff(x - room)),
                    query_consumed: room,
                    ref_consumed: room,
                }
            } else {
                SplitCigar { left: op, right: None, query_consumed: x, ref_consumed: x }
            }
        },
        CigarOp::Ins(x) => {
            if room < x {
                SplitCigar {
                    left: CigarOp::Ins(room),
                    right: Some(CigarOp::Ins(x - room)),
                    query_consumed: room,
                    ref_consumed: 0,
                }
            } else {
                SplitCigar { left: op, right: None, query_consumed: x, ref_consumed: 0 }
            }
        },
        CigarOp::SoftClip(x) => {
            if room < x {
                SplitCigar {
                    left: CigarOp::SoftClip(room),
                    right: Some(CigarOp::SoftClip(x - room)),
                    query_consumed: room,
                    ref_consumed: 0,
                }
            } else {
                SplitCigar { left: op, right: None, query_consumed: x, ref_consumed: 0 }
            }
        },
        CigarOp::Del(x) => SplitCigar { left: op, right: None, query_consumed: 0, ref_consumed: x },
        CigarOp::RefSkip(x) => SplitCigar {
            left: op,
            right: None,
            query_consumed: 0,
            ref_consumed: x,
        },
        CigarOp::HardClip(_) => SplitCigar {
            left: op,
            right: None,
            query_consumed: 0,
            ref_consumed: 0,
        },
        CigarOp::Pad(_) => SplitCigar { left: op, right: None, query_consumed: 0, ref_consumed: 0 },
    }
}

} // verus!
