//! The chopping state machine: configuration, the functional specification of
//! one chopping run, and the verified single-pass implementation.

use vstd::prelude::*;

use crate::cigar::consume_cigar;
use crate::cigar::lemma_query_len_push;
use crate::cigar::lemma_ref_len_push;
use crate::cigar::op_len;
use crate::cigar::op_query;
use crate::cigar::op_ref;
use crate::cigar::query_len;
use crate::cigar::ref_len;
use crate::cigar::with_len;
use crate::cigar::CigarOp;
use crate::record::fragment_name;
use crate::record::fragment_qname;
use crate::record::copy_range;
use crate::record::AlignmentRecord;
use crate::record::RecordModel;

verus! {

/// Splits alignment records into fragments of at most `chunk_size` read bases.
pub struct AlignmentChopper {
    chunk_size: u32,
    min_length: u32,
    skip_clipped_bases: bool,
    read_group: Option<String>,
}

/// Mathematical model of a chopper configuration.
#[verifier::ext_equal]
pub ghost struct ChopperModel {
    pub chunk_size: u32,
    pub min_length: u32,
    pub skip_clipped_bases: bool,
    pub read_group: Option<Seq<char>>,
}

impl View for AlignmentChopper {
    type V = ChopperModel;

    closed spec fn view(&self) -> ChopperModel {
        ChopperModel {
            chunk_size: self.chunk_size,
            min_length: self.min_length,
            skip_clipped_bases: self.skip_clipped_bases,
            read_group: match self.read_group {
                Some(s) => Some(s@),
                None => None,
            },
        }
    }
}

/// Clip trimming: when `skip` is set, removes one trailing hard clip, then one
/// trailing soft clip, then one leading hard clip, then one leading soft clip,
/// whose length becomes the initial query offset into the sequence.
pub open spec fn spec_trim(ops: Seq<CigarOp>, skip: bool) -> (Seq<CigarOp>, nat) {
    if !skip {
        (ops, 0 as nat)
    } else {
        let t1 = if ops.len() > 0 && ops.last() is HardClip {
            ops.drop_last()
        } else {
            ops
        };
        let t2 = if t1.len() > 0 && t1.last() is SoftClip {
            t1.drop_last()
        } else {
            t1
        };
        let t3 = if t2.len() > 0 && t2.first() is HardClip {
            t2.drop_first()
        } else {
            t2
        };
        if t3.len() > 0 && t3.first() is SoftClip {
            (t3.drop_first(), op_len(t3.first()))
        } else {
            (t3, 0 as nat)
        }
    }
}

/// The fragment CIGARs of one chopping run over `ops`, with `cur` the fragment
/// in progress and `q` its query-consuming length so far. A fragment is emitted
/// exactly when its query length reaches `chunk`; the unfinished fragment is
/// emitted at the end when it is non-empty and holds at least `min` query
/// bases, so a chunk boundary that coincides with the end of the CIGAR never
/// leaves an empty fragment behind.
pub open spec fn spec_frags(
    ops: Seq<CigarOp>,
    cur: Seq<CigarOp>,
    q: nat,
    chunk: u32,
    min: u32,
) -> Seq<Seq<CigarOp>>
    decreases ops.len(), (if ops.len() > 0 { op_len(ops.first()) } else { 0 }),
{
    if ops.len() == 0 {
        if q >= min && cur.len() > 0 {
            seq![cur]
        } else {
            Seq::empty()
        }
    } else {
        let op = ops.first();
        let oq = op_query(op);
        if q < chunk && q + oq > chunk {
            let room = (chunk - q) as u32;
            let left = with_len(op, room);
            let right = with_len(op, (op_len(op) - room) as u32);
            seq![cur.push(left)] + spec_frags(
                seq![right] + ops.drop_first(),
                Seq::empty(),
                0,
                chunk,
                min,
            )
        } else if q + oq == chunk {
            seq![cur.push(op)] + spec_frags(ops.drop_first(), Seq::empty(), 0, chunk, min)
        } else {
            spec_frags(ops.drop_first(), cur.push(op), q + oq, chunk, min)
        }
    }
}

/// The fragment CIGARs produced for a trimmed operation list. A record with no
/// operations left produces its one empty fragment when `min` is zero: only
/// then can a fragment with an empty CIGAR appear.
pub open spec fn spec_chop_cigars(ops: Seq<CigarOp>, chunk: u32, min: u32) -> Seq<Seq<CigarOp>> {
    if ops.len() == 0 {
        if min == 0 {
            seq![Seq::<CigarOp>::empty()]
        } else {
            Seq::empty()
        }
    } else {
        spec_frags(ops, Seq::empty(), 0, chunk, min)
    }
}

/// Query-consuming length of the fragment in progress when the pass ends; what
/// the minimum-length policy measures.
pub open spec fn spec_leftover(ops: Seq<CigarOp>, q: nat, chunk: u32) -> nat
    decreases ops.len(), (if ops.len() > 0 { op_len(ops.first()) } else { 0 }),
{
    if ops.len() == 0 {
        q
    } else {
        let op = ops.first();
        let oq = op_query(op);
        if q < chunk && q + oq > chunk {
            let room = (chunk - q) as u32;
            let right = with_len(op, (op_len(op) - room) as u32);
            spec_leftover(seq![right] + ops.drop_first(), 0, chunk)
        } else if q + oq == chunk {
            spec_leftover(ops.drop_first(), 0, chunk)
        } else {
            spec_leftover(ops.drop_first(), q + oq, chunk)
        }
    }
}

/// Total query bases over a list of fragment CIGARs.
pub open spec fn frags_query(frags: Seq<Seq<CigarOp>>) -> nat
    decreases frags.len(),
{
    if frags.len() == 0 {
        0
    } else {
        query_len(frags.first()) + frags_query(frags.drop_first())
    }
}

/// Total reference bases over a list of fragment CIGARs.
pub open spec fn frags_ref(frags: Seq<Seq<CigarOp>>) -> nat
    decreases frags.len(),
{
    if frags.len() == 0 {
        0
    } else {
        ref_len(frags.first()) + frags_ref(frags.drop_first())
    }
}

pub proof fn lemma_frags_query_concat(a: Seq<Seq<CigarOp>>, b: Seq<Seq<CigarOp>>)
    ensures
        frags_query(a + b) == frags_query(a) + frags_query(b),
    decreases a.len(),
{
    if a.len() == 0 {
        assert(a + b =~= b);
    } else {
        assert((a + b).drop_first() =~= a.drop_first() + b);
        lemma_frags_query_concat(a.drop_first(), b);
    }
}

pub proof fn lemma_frags_ref_concat(a: Seq<Seq<CigarOp>>, b: Seq<Seq<CigarOp>>)
    ensures
        frags_ref(a + b) == frags_ref(a) + frags_ref(b),
    decreases a.len(),
{
    if a.len() == 0 {
        assert(a + b =~= b);
    } else {
        assert((a + b).drop_first() =~= a.drop_first() + b);
        lemma_frags_ref_concat(a.drop_first(), b);
    }
}

pub proof fn lemma_frags_query_push(a: Seq<Seq<CigarOp>>, f: Seq<CigarOp>)
    ensures
        frags_query(a.push(f)) == frags_query(a) + query_len(f),
{
    assert(a.push(f) =~= a + seq![f]);
    lemma_frags_query_concat(a, seq![f]);
    assert(seq![f].drop_first() =~= Seq::<Seq<CigarOp>>::empty());
    assert(frags_query(seq![f]) == query_len(f) + frags_query(seq![f].drop_first()));
}

pub proof fn lemma_frags_ref_push(a: Seq<Seq<CigarOp>>, f: Seq<CigarOp>)
    ensures
        frags_ref(a.push(f)) == frags_ref(a) + ref_len(f),
{
    assert(a.push(f) =~= a + seq![f]);
    lemma_frags_ref_concat(a, seq![f]);
    assert(seq![f].drop_first() =~= Seq::<Seq<CigarOp>>::empty());
    assert(frags_ref(seq![f]) == ref_len(f) + frags_ref(seq![f].drop_first()));
}

/// Trimming never adds query or reference bases: the initial query offset plus
/// the trimmed CIGAR's query length fits in the original, and so does the
/// trimmed reference length.
pub proof fn lemma_trim_bounds(ops: Seq<CigarOp>, skip: bool)
    ensures
        spec_trim(ops, skip).1 + query_len(spec_trim(ops, skip).0) <= query_len(ops),
        ref_len(spec_trim(ops, skip).0) <= ref_len(ops),
{
    if skip {
        let t1 = if ops.len() > 0 && ops.last() is HardClip {
            ops.drop_last()
        } else {
            ops
        };
        let t2 = if t1.len() > 0 && t1.last() is SoftClip {
            t1.drop_last()
        } else {
            t1
        };
        let t3 = if t2.len() > 0 && t2.first() is HardClip {
            t2.drop_first()
        } else {
            t2
        };
        if ops.len() > 0 && ops.last() is HardClip {
            assert(ops =~= ops.drop_last().push(ops.last()));
            lemma_query_len_push(ops.drop_last(), ops.last());
            lemma_ref_len_push(ops.drop_last(), ops.last());
        }
        if t1.len() > 0 && t1.last() is SoftClip {
            assert(t1 =~= t1.drop_last().push(t1.last()));
            lemma_query_len_push(t1.drop_last(), t1.last());
            lemma_ref_len_push(t1.drop_last(), t1.last());
        }
        if t2.len() > 0 && t2.first() is HardClip {
            assert(query_len(t2) == op_query(t2.first()) + query_len(t2.drop_first()));
            assert(ref_len(t2) == op_ref(t2.first()) + ref_len(t2.drop_first()));
        }
        if t3.len() > 0 && t3.first() is SoftClip {
            assert(query_len(t3) == op_query(t3.first()) + query_len(t3.drop_first()));
            assert(ref_len(t3) == op_ref(t3.first()) + ref_len(t3.drop_first()));
        }
    }
}

/// The operations still to place: the pending remainder of a partly consumed
/// operation, if any, followed by the untouched tail of the CIGAR.
pub open spec fn rem_ops(more: bool, pending: CigarOp, tail: Seq<CigarOp>) -> Seq<CigarOp> {
    if more {
        seq![pending] + tail
    } else {
        tail
    }
}

/// The output fragment for one chunk: the identifier gains the fragment index,
/// the position advances by the reference bases consumed before the chunk, the
/// sequence and qualities are the chunk's slice, the fixed fields are copied,
/// and the read-group tag is the configured one or absent.
#[verifier::opaque]
pub open spec fn mk_frag(
    r: RecordModel,
    rg: Option<Seq<char>>,
    cigar: Seq<CigarOp>,
    qstart: nat,
    roff: nat,
    idx: nat,
) -> RecordModel {
    RecordModel {
        qname: fragment_name(r.qname, idx),
        flags: r.flags,
        tid: r.tid,
        pos: r.pos + roff,
        mapq: r.mapq,
        cigar: cigar,
        mtid: r.mtid,
        mpos: r.mpos,
        insert_size: r.insert_size,
        seq: r.seq.subrange(qstart as int, (qstart + query_len(cigar)) as int),
        qual: r.qual.subrange(qstart as int, (qstart + query_len(cigar)) as int),
        read_group: rg,
    }
}

/// One whole chopping run: trim clips, split the CIGAR into chunks, and
/// materialize one record per chunk.
pub open spec fn spec_chop(cfg: ChopperModel, r: RecordModel) -> Seq<RecordModel> {
    let (ops, qoff0) = spec_trim(r.cigar, cfg.skip_clipped_bases);
    let frags = spec_chop_cigars(ops, cfg.chunk_size, cfg.min_length);
    Seq::new(
        frags.len(),
        |i: int|
            mk_frag(
                r,
                cfg.read_group,
                frags[i],
                qoff0 + frags_query(frags.take(i)),
                frags_ref(frags.take(i)),
                i as nat,
            ),
    )
}

impl AlignmentChopper {
    /// The configuration is valid: a chunk must hold at least one read base.
    pub open spec fn wf(self) -> bool {
        self@.chunk_size >= 1
    }

    /// Configures a chopper. A chunk size of zero would never fill a chunk, so
    /// it is rejected here, at configuration time.
    pub fn new(chunk_size: u32, min_length: u32, skip_clipped_bases: bool, read_group: Option<
        String,
    >) -> (c: Self)
        requires
            1 <= chunk_size,
        ensures
            c@ == (ChopperModel {
                chunk_size,
                min_length,
                skip_clipped_bases,
                read_group: match read_group {
                    Some(s) => Some(s@),
                    None => None,
                },
            }),
            c.wf(),
    {
        AlignmentChopper { chunk_size, min_length, skip_clipped_bases, read_group }
    }

    /// Materializes one output fragment from the original record, a chunk's
    /// CIGAR, and the chunk's query and reference offsets.
    fn build_fragment(
        &self,
        rec: &AlignmentRecord,
        cigar: Vec<CigarOp>,
        gq: usize,
        local_query: u32,
        gref: i64,
        idx: usize,
    ) -> (f: AlignmentRecord)
        requires
            query_len(cigar@) == local_query as nat,
            gq + local_query as nat <= rec.seq@.len(),
            rec.qual@.len() == rec.seq@.len(),
            0 <= gref,
            rec.pos + gref <= i64::MAX,
        ensures
            f@ == mk_frag(rec@, self@.read_group, cigar@, gq as nat, gref as nat, idx as nat),
    {
        // The length call brings the sequence length's usize bound into scope
        // for the overflow check on the slice end.
        let seq_len: usize = rec.seq.len();
        proof {
            assert(rec.seq@.len() == seq_len as nat);
        }
        let end = gq + local_query as usize;
        let seq = copy_range(&rec.seq, gq, end);
        let qual = copy_range(&rec.qual, gq, end);
        let qname = fragment_qname(&rec.qname, idx as u64);
        let read_group = match &self.read_group {
            Some(s) => Some(s.clone()),
            None => None,
        };
        let f = AlignmentRecord {
            qname,
            flags: rec.flags,
            tid: rec.tid,
            pos: rec.pos + gref,
            mapq: rec.mapq,
            cigar,
            mtid: rec.mtid,
            mpos: rec.mpos,
            insert_size: rec.insert_size,
            seq,
            qual,
            read_group,
        };
        proof {
            reveal(mk_frag);
            assert(f@ =~= mk_frag(
                rec@,
                self@.read_group,
                cigar@,
                gq as nat,
                gref as nat,
                idx as nat,
            ));
        }
        f
    }

    /// Clip trimming: finds the working CIGAR range `[r.0, r.1)` and the
    /// initial query offset `r.2` that a dropped leading soft clip causes.
    fn trim_clips(&self, rec: &AlignmentRecord) -> (r: (usize, usize, usize))
        ensures
            ({
                let (t, qoff) = spec_trim(rec.cigar@, self@.skip_clipped_bases);
                &&& r.0 <= r.1 <= rec.cigar@.len()
                &&& t == rec.cigar@.subrange(r.0 as int, r.1 as int)
                &&& qoff == r.2 as nat
            }),
    {
        let ghost ops = rec.cigar@;
        let mut start: usize = 0;
        let mut end: usize = rec.cigar.len();
        let mut qoff: usize = 0;
        if !self.skip_clipped_bases {
            proof {
                assert(ops.subrange(0, ops.len() as int) =~= ops);
            }
            return (start, end, qoff);
        }
        if end > 0 && matches!(rec.cigar[end - 1], CigarOp::HardClip(_)) {
            end = end - 1;
        }
        let ghost e1 = end as int;
        proof {
            let t1 = if ops.len() > 0 && ops.last() is HardClip {
                ops.drop_last()
            } else {
                ops
            };
            assert(t1 =~= ops.subrange(0, e1));
        }
        if end > 0 && matches!(rec.cigar[end - 1], CigarOp::SoftClip(_)) {
            end = end - 1;
        }
        let ghost e2 = end as int;
        proof {
            let t1 = if ops.len() > 0 && ops.last() is HardClip {
                ops.drop_last()
            } else {
                ops
            };
            let t2 = if t1.len() > 0 && t1.last() is SoftClip {
                t1.drop_last()
            } else {
                t1
            };
            assert(t1 == ops.subrange(0, e1));
            assert(t1.len() > 0 ==> t1.last() == ops[e1 - 1]);
            assert(t2 =~= ops.subrange(0, e2));
        }
        if start < end && matches!(rec.cigar[start], CigarOp::HardClip(_)) {
            start = start + 1;
        }
        let ghost s1 = start as int;
        let ghost t3 = {
            let t1 = if ops.len() > 0 && ops.last() is HardClip {
                ops.drop_last()
            } else {
                ops
            };
            let t2 = if t1.len() > 0 && t1.last() is SoftClip {
                t1.drop_last()
            } else {
                t1
            };
            if t2.len() > 0 && t2.first() is HardClip {
                t2.drop_first()
            } else {
                t2
            }
        };
        proof {
            assert(t3 =~= ops.subrange(s1, e2));
        }
        if start < end {
            if let CigarOp::SoftClip(x) = rec.cigar[start] {
                qoff = x as usize;
                start = start + 1;
            }
        }
        proof {
            assert(t3.len() > 0 ==> t3.first() == ops[s1]);
            if t3.len() > 0 && t3.first() is SoftClip {
                assert(t3.drop_first() =~= ops.subrange(s1 + 1, e2));
                assert(spec_trim(ops, true) == (t3.drop_first(), op_len(t3.first())));
            } else {
                assert(spec_trim(ops, true) == (t3, 0 as nat));
            }
            assert(spec_trim(ops, true).0 == ops.subrange(start as int, end as int));
        }
        (start, end, qoff)
    }

    /// Chops one record into fragments of at most `chunk_size` query bases.
    /// The result is exactly the functional specification `spec_chop`: one
    /// record per fragment CIGAR, in read order, with positions, slices,
    /// identifiers and copied fields as `mk_frag` states.
    #[verifier::rlimit(100)]
    pub fn chop_read(&self, rec: &AlignmentRecord) -> (out: Vec<AlignmentRecord>)
        requires
            self.wf(),
            rec.wf(),
        ensures
            out@.map_values(|f: AlignmentRecord| f@) == spec_chop(self@, rec@),
    {
        let chunk: u32 = self.chunk_size;
        let minl: u32 = self.min_length;
        // The length call brings the sequence length's usize bound into scope
        // for the overflow checks on the query offset.
        let seq_total: usize = rec.seq.len();
        proof {
            assert(rec.seq@.len() == seq_total as nat);
        }
        let (start, end, gq0) = self.trim_clips(rec);
        let ghost trimmed = rec.cigar@.subrange(start as int, end as int);
        let ghost qoff0 = gq0 as nat;
        let ghost frags_full = spec_chop_cigars(trimmed, chunk, minl);
        let ghost rg = self@.read_group;
        proof {
            lemma_trim_bounds(rec.cigar@, self@.skip_clipped_bases);
        }

        let mut out: Vec<AlignmentRecord> = Vec::new();
        if start == end {
            // No operations survive trimming: the one fragment owed when the
            // minimum length is zero is the empty fragment itself.
            proof {
                assert(trimmed =~= Seq::<CigarOp>::empty());
                assert(query_len(Seq::<CigarOp>::empty()) == 0);
            }
            if minl == 0 {
                let f = self.build_fragment(rec, Vec::new(), gq0, 0, 0, 0);
                out.push(f);
            }
            proof {
                assert(out@.map_values(|f: AlignmentRecord| f@) =~= spec_chop(self@, rec@)) by {
                    if minl == 0 {
                        assert(frags_full == seq![Seq::<CigarOp>::empty()]);
                        assert(frags_full.take(0) =~= Seq::<Seq<CigarOp>>::empty());
                        assert(frags_query(Seq::<Seq<CigarOp>>::empty()) == 0);
                        assert(frags_ref(Seq::<Seq<CigarOp>>::empty()) == 0);
                        assert(out@.map_values(|f: AlignmentRecord| f@)[0] == out@[0]@);
                        assert(out@[0]@ == mk_frag(
                            rec@,
                            rg,
                            frags_full[0],
                            qoff0,
                            0,
                            0,
                        ));
                    } else {
                        assert(frags_full =~= Seq::<Seq<CigarOp>>::empty());
                    }
                }
            }
            return out;
        }
        proof {
            assert(trimmed.len() > 0);
        }
        let ghost mut emitted = Seq::<Seq<CigarOp>>::empty();
        let mut cur: Vec<CigarOp> = Vec::new();
        let mut q: u32 = 0;
        let mut lref: i64 = 0;
        let mut gq: usize = gq0;
        let mut gref: i64 = 0;
        let mut i: usize = start;

        proof {
            assert(emitted + spec_frags(trimmed, cur@, 0, chunk, minl) =~= spec_frags(
                trimmed,
                cur@,
                0,
                chunk,
                minl,
            ));
            assert(frags_full.take(0) =~= emitted);
        }

        while i < end
            invariant
                rec.wf(),
                1 <= chunk,
                rg == self@.read_group,
                rec.seq@.len() <= usize::MAX,
                start <= i <= end <= rec.cigar@.len(),
                frags_full == emitted + spec_frags(
                    rec.cigar@.subrange(i as int, end as int),
                    cur@,
                    q as nat,
                    chunk,
                    minl,
                ),
                out@.len() == emitted.len(),
                emitted == frags_full.take(out@.len() as int),
                forall|j: int|
                    0 <= j < out@.len() ==> out@[j]@ == mk_frag(
                        rec@,
                        rg,
                        frags_full[j],
                        qoff0 + frags_query(frags_full.take(j)),
                        frags_ref(frags_full.take(j)),
                        j as nat,
                    ),
                query_len(cur@) == q as nat,
                ref_len(cur@) == lref as int,
                0 <= lref,
                0 <= gref,
                q < chunk,
                gq as nat == qoff0 + frags_query(emitted),
                gref as nat == frags_ref(emitted),
                qoff0 + frags_query(emitted) + q + query_len(
                    rec.cigar@.subrange(i as int, end as int),
                ) <= rec.seq@.len(),
                frags_ref(emitted) + lref + ref_len(rec.cigar@.subrange(i as int, end as int))
                    <= ref_len(rec.cigar@),
            decreases end - i,
        {
            let op = rec.cigar[i];
            let ghost tail = rec.cigar@.subrange(i as int + 1, end as int);
            proof {
                assert(rec.cigar@.subrange(i as int, end as int) =~= seq![op] + tail);
            }
            let mut pending = op;
            let mut more = true;
            while more
                invariant
                    rec.wf(),
                    1 <= chunk,
                    rg == self@.read_group,
                    rec.seq@.len() <= usize::MAX,
                    i < end <= rec.cigar@.len(),
                    frags_full == emitted + spec_frags(
                        rem_ops(more, pending, tail),
                        cur@,
                        q as nat,
                        chunk,
                        minl,
                    ),
                    out@.len() == emitted.len(),
                    emitted == frags_full.take(out@.len() as int),
                    forall|j: int|
                        0 <= j < out@.len() ==> out@[j]@ == mk_frag(
                            rec@,
                            rg,
                            frags_full[j],
                            qoff0 + frags_query(frags_full.take(j)),
                            frags_ref(frags_full.take(j)),
                            j as nat,
                        ),
                    query_len(cur@) == q as nat,
                    ref_len(cur@) == lref as int,
                    0 <= lref,
                    0 <= gref,
                    q < chunk,
                    gq as nat == qoff0 + frags_query(emitted),
                    gref as nat == frags_ref(emitted),
                    qoff0 + frags_query(emitted) + q + query_len(rem_ops(more, pending, tail))
                        <= rec.seq@.len(),
                    frags_ref(emitted) + lref + ref_len(rem_ops(more, pending, tail)) <= ref_len(
                        rec.cigar@,
                    ),
                decreases (if more {
                    op_len(pending) + 1
                } else {
                    0
                }),
            {
                let ghost prev_rem = rem_ops(true, pending, tail);
                let ghost cur0 = cur@;
                let ghost q0 = q as nat;
                let ghost emitted0 = emitted;
                proof {
                    assert(prev_rem.first() == pending);
                    assert(prev_rem.drop_first() =~= tail);
                    assert(query_len(prev_rem) == op_query(pending) + query_len(tail));
                    assert(ref_len(prev_rem) == op_ref(pending) + ref_len(tail));
                }
                let room = chunk - q;
                let sc = consume_cigar(pending, room);
                proof {
                    assert(q + sc.query_consumed <= chunk);
                    assert(op_query(sc.left) == sc.query_consumed as nat);
                    assert(op_ref(sc.left) == sc.ref_consumed as nat);
                    assert(sc.ref_consumed as nat <= op_ref(pending));
                    lemma_query_len_push(cur0, sc.left);
                    lemma_ref_len_push(cur0, sc.left);
                }
                cur.push(sc.left);
                q = q + sc.query_consumed;
                lref = lref + sc.ref_consumed as i64;
                if q == chunk {
                    let ghost newfrag = cur0.push(sc.left);
                    let ghost rest = spec_frags(
                        rem_ops(sc.right is Some, (if sc.right is Some {
                            sc.right->0
                        } else {
                            pending
                        }), tail),
                        Seq::empty(),
                        0,
                        chunk,
                        minl,
                    );
                    proof {
                        if sc.right is Some {
                            assert(q0 < chunk && q0 + op_query(pending) > chunk);
                            assert(sc.left == with_len(pending, (chunk - q0) as u32));
                            assert(rem_ops(true, sc.right->0, tail) =~= seq![sc.right->0] + tail);
                            assert(spec_frags(prev_rem, cur0, q0, chunk, minl) == seq![newfrag]
                                + rest);
                        } else {
                            assert(q0 + op_query(pending) == chunk);
                            assert(rem_ops(false, pending, tail) == tail);
                            assert(spec_frags(prev_rem, cur0, q0, chunk, minl) == seq![newfrag]
                                + rest);
                        }
                        assert(emitted0 + (seq![newfrag] + rest) =~= emitted0.push(newfrag) + rest);
                        assert(frags_full == emitted0.push(newfrag) + rest);
                        assert(frags_full[emitted0.len() as int] == newfrag);
                        assert(frags_full.take(emitted0.len() as int + 1) =~= emitted0.push(
                            newfrag,
                        ));
                    }
                    let frag_cigar = cur;
                    cur = Vec::new();
                    let f = self.build_fragment(rec, frag_cigar, gq, q, gref, out.len());
                    out.push(f);
                    proof {
                        emitted = emitted0.push(newfrag);
                        lemma_frags_query_push(emitted0, newfrag);
                        lemma_frags_ref_push(emitted0, newfrag);
                    }
                    gq = gq + q as usize;
                    gref = gref + lref;
                    q = 0;
                    lref = 0;
                } else {
                    proof {
                        assert(spec_frags(prev_rem, cur0, q0, chunk, minl) == spec_frags(
                            tail,
                            cur@,
                            q as nat,
                            chunk,
                            minl,
                        ));
                    }
                }
                if let Some(r2) = sc.right {
                    pending = r2;
                    proof {
                        let nr = seq![pending] + tail;
                        assert(nr.first() == pending);
                        assert(nr.drop_first() =~= tail);
                        assert(query_len(nr) == op_query(nr.first()) + query_len(nr.drop_first()));
                        assert(ref_len(nr) == op_ref(nr.first()) + ref_len(nr.drop_first()));
                        assert(rem_ops(true, pending, tail) == nr);
                    }
                } else {
                    more = false;
                }
            }
            i = i + 1;
            proof {
                assert(rec.cigar@.subrange(i as int, end as int) =~= tail);
            }
        }

        proof {
            assert(rec.cigar@.subrange(end as int, end as int) =~= Seq::<CigarOp>::empty());
        }
        if q >= minl && cur.len() > 0 {
            let ghost newfrag = cur@;
            let ghost emitted0 = emitted;
            proof {
                assert(spec_frags(Seq::<CigarOp>::empty(), cur@, q as nat, chunk, minl)
                    == seq![newfrag]);
                assert(emitted0 + seq![newfrag] =~= emitted0.push(newfrag));
                assert(frags_full == emitted0.push(newfrag));
                assert(frags_full[emitted0.len() as int] == newfrag);
                assert(frags_full.take(emitted0.len() as int + 1) =~= emitted0.push(newfrag));
            }
            let f = self.build_fragment(rec, cur, gq, q, gref, out.len());
            out.push(f);
            proof {
                emitted = emitted0.push(newfrag);
            }
        } else {
            proof {
                assert(spec_frags(Seq::<CigarOp>::empty(), cur@, q as nat, chunk, minl)
                    =~= Seq::<Seq<CigarOp>>::empty());
                assert(emitted + Seq::<Seq<CigarOp>>::empty() =~= emitted);
            }
        }
        proof {
            assert(out@.map_values(|f: AlignmentRecord| f@) =~= spec_chop(self@, rec@)) by {
                assert(emitted == frags_full);
                assert(out@.len() == frags_full.len());
                assert forall|j: int| 0 <= j < out@.len() implies out@.map_values(
                    |f: AlignmentRecord| f@,
                )[j] == spec_chop(self@, rec@)[j] by {
                    assert(out@.map_values(|f: AlignmentRecord| f@)[j] == out@[j]@);
                }
            }
        }
        out
    }
}

} // verus!
