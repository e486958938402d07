//! Laws of the chopper, proved of the functional specification `spec_chop`
//! that `chop_read`'s contract equates with its output.

use vstd::prelude::*;

use crate::alignment_chopper::frags_query;
use crate::alignment_chopper::frags_ref;
use crate::alignment_chopper::lemma_frags_query_concat;
use crate::alignment_chopper::lemma_frags_ref_push;
use crate::alignment_chopper::mk_frag;
use crate::alignment_chopper::spec_chop;
use crate::alignment_chopper::spec_chop_cigars;
use crate::alignment_chopper::spec_frags;
use crate::alignment_chopper::spec_leftover;
use crate::alignment_chopper::spec_trim;
use crate::alignment_chopper::ChopperModel;
use crate::cigar::lemma_query_len_push;
use crate::cigar::op_len;
use crate::cigar::op_query;
use crate::cigar::query_len;
use crate::cigar::ref_len;
use crate::cigar::with_len;
use crate::cigar::CigarOp;
use crate::record::fragment_name;
use crate::record::lemma_fragment_name_injective;
use crate::record::RecordModel;

verus! {

/// Query bases that the minimum-length policy drops: the trailing remainder
/// when it is shorter than `min`.
pub open spec fn min_dropped(ops: Seq<CigarOp>, chunk: u32, min: u32) -> nat {
    let lo = spec_leftover(ops, 0, chunk);
    if lo >= min {
        0
    } else {
        lo
    }
}

/// Query bases that clip trimming removes from the CIGAR.
pub open spec fn clip_dropped(ops: Seq<CigarOp>, skip: bool) -> int {
    query_len(ops) - query_len(spec_trim(ops, skip).0)
}

proof fn lemma_frags_conservation(ops: Seq<CigarOp>, cur: Seq<CigarOp>, q: nat, chunk: u32, min: u32)
    requires
        query_len(cur) == q,
    ensures
        ({
            let lo = spec_leftover(ops, q, chunk);
            frags_query(spec_frags(ops, cur, q, chunk, min)) + (if lo >= min {
                0
            } else {
                lo
            }) == q + query_len(ops)
        }),
    decreases ops.len(), (if ops.len() > 0 { op_len(ops.first()) } else { 0 }),
{
    assert(frags_query(Seq::<Seq<CigarOp>>::empty()) == 0);
    if ops.len() == 0 {
        if q >= min {
            assert(seq![cur].drop_first() =~= Seq::<Seq<CigarOp>>::empty());
            assert(frags_query(seq![cur]) == query_len(cur));
        }
    } else {
        let op = ops.first();
        let oq = op_query(op);
        if q < chunk && q + oq > chunk {
            let room = (chunk - q) as u32;
            let left = with_len(op, room);
            let right = with_len(op, (op_len(op) - room) as u32);
            let rest_ops = seq![right] + ops.drop_first();
            let newfrag = cur.push(left);
            let rest_frags = spec_frags(rest_ops, Seq::empty(), 0, chunk, min);
            lemma_query_len_push(cur, left);
            lemma_frags_conservation(rest_ops, Seq::empty(), 0, chunk, min);
            assert(rest_ops.first() == right);
            assert(rest_ops.drop_first() =~= ops.drop_first());
            assert(query_len(rest_ops) == op_query(right) + query_len(ops.drop_first()));
            lemma_frags_query_concat(seq![newfrag], rest_frags);
            assert(seq![newfrag].drop_first() =~= Seq::<Seq<CigarOp>>::empty());
            assert(frags_query(seq![newfrag]) == query_len(newfrag));
        } else if q + oq == chunk {
            let newfrag = cur.push(op);
            let rest_frags = spec_frags(ops.drop_first(), Seq::empty(), 0, chunk, min);
            lemma_query_len_push(cur, op);
            lemma_frags_conservation(ops.drop_first(), Seq::empty(), 0, chunk, min);
            lemma_frags_query_concat(seq![newfrag], rest_frags);
            assert(seq![newfrag].drop_first() =~= Seq::<Seq<CigarOp>>::empty());
            assert(frags_query(seq![newfrag]) == query_len(newfrag));
        } else {
            lemma_query_len_push(cur, op);
            lemma_frags_conservation(ops.drop_first(), cur.push(op), q + oq, chunk, min);
        }
    }
}

/// Length conservation: the query bases of all emitted fragments, plus the
/// bases clip trimming removed and the bases the minimum-length policy dropped
/// from the trailing remainder, equal the record's sequence length.
pub proof fn lemma_length_conservation(cfg: ChopperModel, r: RecordModel)
    requires
        query_len(r.cigar) == r.seq.len(),
    ensures
        ({
            let ops = spec_trim(r.cigar, cfg.skip_clipped_bases).0;
            let frags = spec_chop_cigars(ops, cfg.chunk_size, cfg.min_length);
            frags_query(frags) + min_dropped(ops, cfg.chunk_size, cfg.min_length) + clip_dropped(
                r.cigar,
                cfg.skip_clipped_bases,
            ) == r.seq.len()
        }),
{
    let ops = spec_trim(r.cigar, cfg.skip_clipped_bases).0;
    if ops.len() == 0 {
        assert(spec_leftover(ops, 0, cfg.chunk_size) == 0);
        if cfg.min_length == 0 {
            let frags = spec_chop_cigars(ops, cfg.chunk_size, cfg.min_length);
            assert(frags == seq![Seq::<CigarOp>::empty()]);
            assert(seq![Seq::<CigarOp>::empty()].drop_first() =~= Seq::<Seq<CigarOp>>::empty());
            assert(frags_query(Seq::<Seq<CigarOp>>::empty()) == 0);
            assert(query_len(Seq::<CigarOp>::empty()) == 0);
        }
    } else {
        lemma_frags_conservation(ops, Seq::empty(), 0, cfg.chunk_size, cfg.min_length);
    }
}

/// Reference bases consumed by the fragments before index `i`.
pub open spec fn ref_consumed_before(out: Seq<RecordModel>, i: int) -> nat
    decreases i,
{
    if i <= 0 {
        0
    } else {
        ref_consumed_before(out, i - 1) + ref_len(out[i - 1].cigar)
    }
}

proof fn lemma_ref_before_matches(out: Seq<RecordModel>, frags: Seq<Seq<CigarOp>>, i: int)
    requires
        0 <= i <= out.len(),
        out.len() == frags.len(),
        forall|j: int| 0 <= j < out.len() ==> #[trigger] out[j].cigar == frags[j],
    ensures
        ref_consumed_before(out, i) == frags_ref(frags.take(i)),
    decreases i,
{
    if i > 0 {
        lemma_ref_before_matches(out, frags, i - 1);
        assert(frags.take(i) =~= frags.take(i - 1).push(frags[i - 1]));
        lemma_frags_ref_push(frags.take(i - 1), frags[i - 1]);
    } else {
        assert(frags.take(0) =~= Seq::<Seq<CigarOp>>::empty());
    }
}

proof fn lemma_ref_before_mono(out: Seq<RecordModel>, i: int, j: int)
    requires
        0 <= i <= j,
    ensures
        ref_consumed_before(out, i) <= ref_consumed_before(out, j),
    decreases j - i,
{
    if i < j {
        lemma_ref_before_mono(out, i, j - 1);
    }
}

/// Position monotonicity: every fragment's position is the original position
/// advanced by the reference bases the previously emitted fragments consumed,
/// so positions are non-decreasing.
pub proof fn lemma_position_monotonic(cfg: ChopperModel, r: RecordModel)
    ensures
        ({
            let out = spec_chop(cfg, r);
            &&& forall|i: int|
                0 <= i < out.len() ==> (#[trigger] out[i]).pos == r.pos + ref_consumed_before(
                    out,
                    i,
                )
            &&& forall|i: int, j: int|
                0 <= i <= j < out.len() ==> #[trigger] out[i].pos <= #[trigger] out[j].pos
        }),
{
    reveal(mk_frag);
    let ops = spec_trim(r.cigar, cfg.skip_clipped_bases).0;
    let qoff0 = spec_trim(r.cigar, cfg.skip_clipped_bases).1;
    let frags = spec_chop_cigars(ops, cfg.chunk_size, cfg.min_length);
    let out = spec_chop(cfg, r);
    assert forall|j: int| 0 <= j < out.len() implies #[trigger] out[j].cigar == frags[j] by {}
    assert forall|i: int| 0 <= i < out.len() implies (#[trigger] out[i]).pos == r.pos
        + ref_consumed_before(out, i) by {
        lemma_ref_before_matches(out, frags, i);
    }
    assert forall|i: int, j: int| 0 <= i <= j < out.len() implies #[trigger] out[i].pos
        <= #[trigger] out[j].pos by {
        lemma_ref_before_mono(out, i, j);
    }
}

/// The chunk-size bound, as a predicate over a list of fragment CIGARs.
pub open spec fn frag_sizes_ok(frags: Seq<Seq<CigarOp>>, chunk: u32, min: u32) -> bool {
    forall|i: int|
        0 <= i < frags.len() ==> {
            &&& query_len(#[trigger] frags[i]) <= chunk
            &&& (i < frags.len() - 1 ==> query_len(frags[i]) == chunk)
            &&& (query_len(frags[i]) == chunk || query_len(frags[i]) >= min)
        }
}

proof fn lemma_sizes_cons(newfrag: Seq<CigarOp>, rest: Seq<Seq<CigarOp>>, chunk: u32, min: u32)
    requires
        query_len(newfrag) == chunk,
        frag_sizes_ok(rest, chunk, min),
    ensures
        frag_sizes_ok(seq![newfrag] + rest, chunk, min),
{
    let all = seq![newfrag] + rest;
    assert forall|i: int| 0 <= i < all.len() implies {
        &&& query_len(#[trigger] all[i]) <= chunk
        &&& (i < all.len() - 1 ==> query_len(all[i]) == chunk)
        &&& (query_len(all[i]) == chunk || query_len(all[i]) >= min)
    } by {
        if i == 0 {
            assert(all[0] == newfrag);
        } else {
            assert(all[i] == rest[i - 1]);
            assert(0 <= i - 1 < rest.len());
        }
    }
}

proof fn lemma_frags_sizes(ops: Seq<CigarOp>, cur: Seq<CigarOp>, q: nat, chunk: u32, min: u32)
    requires
        query_len(cur) == q,
        q < chunk,
    ensures
        frag_sizes_ok(spec_frags(ops, cur, q, chunk, min), chunk, min),
    decreases ops.len(), (if ops.len() > 0 { op_len(ops.first()) } else { 0 }),
{
    if ops.len() == 0 {
        if q >= min {
            let frags = seq![cur];
            assert forall|i: int| 0 <= i < frags.len() implies {
                &&& query_len(#[trigger] frags[i]) <= chunk
                &&& (i < frags.len() - 1 ==> query_len(frags[i]) == chunk)
                &&& (query_len(frags[i]) == chunk || query_len(frags[i]) >= min)
            } by {
                assert(frags[i] == cur);
            }
        }
    } else {
        let op = ops.first();
        let oq = op_query(op);
        if q < chunk && q + oq > chunk {
            let room = (chunk - q) as u32;
            let left = with_len(op, room);
            let right = with_len(op, (op_len(op) - room) as u32);
            let rest_ops = seq![right] + ops.drop_first();
            let newfrag = cur.push(left);
            lemma_query_len_push(cur, left);
            lemma_frags_sizes(rest_ops, Seq::empty(), 0, chunk, min);
            lemma_sizes_cons(newfrag, spec_frags(rest_ops, Seq::empty(), 0, chunk, min), chunk, min);
        } else if q + oq == chunk {
            let newfrag = cur.push(op);
            lemma_query_len_push(cur, op);
            lemma_frags_sizes(ops.drop_first(), Seq::empty(), 0, chunk, min);
            lemma_sizes_cons(
                newfrag,
                spec_frags(ops.drop_first(), Seq::empty(), 0, chunk, min),
                chunk,
                min,
            );
        } else {
            lemma_query_len_push(cur, op);
            lemma_frags_sizes(ops.drop_first(), cur.push(op), q + oq, chunk, min);
        }
    }
}

/// Chunk-size bound: every fragment has at most `chunk_size` query bases;
/// every fragment but the last has exactly `chunk_size`; a fragment that is
/// not full has at least `min_length`.
pub proof fn lemma_chunk_size_bound(cfg: ChopperModel, r: RecordModel)
    requires
        1 <= cfg.chunk_size,
    ensures
        ({
            let out = spec_chop(cfg, r);
            forall|i: int|
                0 <= i < out.len() ==> {
                    &&& query_len((#[trigger] out[i]).cigar) <= cfg.chunk_size
                    &&& (i < out.len() - 1 ==> query_len(out[i].cigar) == cfg.chunk_size)
                    &&& (query_len(out[i].cigar) == cfg.chunk_size || query_len(out[i].cigar)
                        >= cfg.min_length)
                }
        }),
{
    reveal(mk_frag);
    let ops = spec_trim(r.cigar, cfg.skip_clipped_bases).0;
    let frags = spec_chop_cigars(ops, cfg.chunk_size, cfg.min_length);
    let out = spec_chop(cfg, r);
    lemma_frags_sizes(ops, Seq::empty(), 0, cfg.chunk_size, cfg.min_length);
    assert forall|j: int| 0 <= j < out.len() implies (#[trigger] out[j]).cigar == frags[j] by {}
}

/// Identifier uniqueness: the identifier of fragment `i` is the original name
/// suffixed with `-i`, so identifiers strictly increase by numeric suffix and
/// are pairwise distinct.
pub proof fn lemma_identifier_uniqueness(cfg: ChopperModel, r: RecordModel)
    ensures
        ({
            let out = spec_chop(cfg, r);
            &&& forall|i: int|
                0 <= i < out.len() ==> (#[trigger] out[i]).qname == fragment_name(
                    r.qname,
                    i as nat,
                )
            &&& forall|i: int, j: int|
                0 <= i < out.len() && 0 <= j < out.len() && i != j ==> (#[trigger] out[i]).qname
                    != (#[trigger] out[j]).qname
        }),
{
    reveal(mk_frag);
    let out = spec_chop(cfg, r);
    assert forall|i: int, j: int|
        0 <= i < out.len() && 0 <= j < out.len() && i != j implies (#[trigger] out[i]).qname
        != (#[trigger] out[j]).qname by {
        lemma_fragment_name_injective(r.qname, i as nat, j as nat);
    }
}

proof fn lemma_frags_single(ops: Seq<CigarOp>, cur: Seq<CigarOp>, q: nat, chunk: u32, min: u32)
    requires
        query_len(cur) == q,
        q + query_len(ops) <= chunk,
        min <= q + query_len(ops),
        cur.len() + ops.len() > 0,
        q + query_len(ops) == chunk ==> ops.len() > 0 && op_query(ops.last()) > 0,
    ensures
        spec_frags(ops, cur, q, chunk, min) == seq![cur + ops],
    decreases ops.len(),
{
    assert(query_len(Seq::<CigarOp>::empty()) == 0);
    if ops.len() == 0 {
        assert(cur.len() > 0);
        assert(cur + ops =~= cur);
    } else {
        let op = ops.first();
        let oq = op_query(op);
        assert(query_len(ops) == oq + query_len(ops.drop_first()));
        lemma_query_len_push(cur, op);
        if q + oq == chunk {
            // The boundary falls on this operation, so nothing that consumes
            // query follows it; the last operation consumes query, so this is
            // the last operation, and the emitted fragment is the whole CIGAR.
            assert(query_len(ops.drop_first()) == 0);
            if ops.len() > 1 {
                let df = ops.drop_first();
                assert(df =~= df.drop_last().push(df.last()));
                lemma_query_len_push(df.drop_last(), df.last());
                assert(df.last() == ops.last());
                assert(false);
            }
            assert(ops.drop_first() =~= Seq::<CigarOp>::empty());
            assert(spec_frags(Seq::<CigarOp>::empty(), Seq::<CigarOp>::empty(), 0, chunk, min)
                =~= Seq::<Seq<CigarOp>>::empty());
            assert(cur.push(op) =~= cur + ops);
            assert(seq![cur.push(op)] + Seq::<Seq<CigarOp>>::empty() =~= seq![cur + ops]);
        } else {
            if ops.len() > 1 && q + query_len(ops) == chunk {
                assert(ops.drop_first().last() == ops.last());
            }
            lemma_frags_single(ops.drop_first(), cur.push(op), q + oq, chunk, min);
            assert(cur.push(op) + ops.drop_first() =~= cur + ops);
        }
    }
}

/// A record whose query length fits in one chunk, chopped without clip
/// skipping, yields exactly one fragment: the record itself, with the
/// identifier suffixed `-0` and the configured read-group tag attached. When
/// the query length equals the chunk size exactly, the CIGAR must end in an
/// operation that consumes query bases: an operation behind the boundary would
/// land in a separate remainder.
pub proof fn lemma_whole_record_single_fragment(cfg: ChopperModel, r: RecordModel)
    requires
        1 <= cfg.chunk_size,
        !cfg.skip_clipped_bases,
        query_len(r.cigar) == r.seq.len(),
        r.qual.len() == r.seq.len(),
        query_len(r.cigar) <= cfg.chunk_size,
        cfg.min_length <= query_len(r.cigar),
        query_len(r.cigar) == cfg.chunk_size ==> r.cigar.len() > 0 && op_query(r.cigar.last())
            > 0,
    ensures
        spec_chop(cfg, r) == seq![
            (RecordModel { qname: fragment_name(r.qname, 0), read_group: cfg.read_group, ..r }),
        ],
{
    reveal(mk_frag);
    let frags = spec_chop_cigars(r.cigar, cfg.chunk_size, cfg.min_length);
    let out = spec_chop(cfg, r);
    if r.cigar.len() == 0 {
        assert(query_len(r.cigar) == 0);
        assert(cfg.min_length == 0);
        assert(frags == seq![Seq::<CigarOp>::empty()]);
        assert(r.cigar =~= Seq::<CigarOp>::empty());
    } else {
        lemma_frags_single(r.cigar, Seq::empty(), 0, cfg.chunk_size, cfg.min_length);
        assert(Seq::<CigarOp>::empty() + r.cigar =~= r.cigar);
        assert(frags == seq![r.cigar]);
    }
    assert(frags[0] == r.cigar);
    assert(out.len() == 1);
    assert(frags.take(0) =~= Seq::<Seq<CigarOp>>::empty());
    assert(r.seq.subrange(0, query_len(r.cigar) as int) =~= r.seq);
    assert(r.qual.subrange(0, query_len(r.cigar) as int) =~= r.qual);
    assert(out[0] =~~= (RecordModel {
        qname: fragment_name(r.qname, 0),
        read_group: cfg.read_group,
        ..r
    }));
    assert(out =~~= seq![
        (RecordModel { qname: fragment_name(r.qname, 0), read_group: cfg.read_group, ..r }),
    ]);
}

} // verus!
