//! The alignment record the chopper reads and produces, its mathematical
//! model, and the fragment-identifier convention `<name>-<index>`.

use vstd::prelude::*;

use crate::cigar::query_len;
use crate::cigar::ref_len;
use crate::cigar::CigarOp;

verus! {

/// Mathematical model of an alignment record.
#[verifier::ext_equal]
pub ghost struct RecordModel {
    pub qname: Seq<u8>,
    pub flags: u16,
    pub tid: i32,
    pub pos: int,
    pub mapq: u8,
    pub cigar: Seq<CigarOp>,
    pub mtid: i32,
    pub mpos: i64,
    pub insert_size: i64,
    pub seq: Seq<u8>,
    pub qual: Seq<u8>,
    pub read_group: Option<Seq<char>>,
}

/// One alignment record: a read mapped to a reference. The chopper only reads
/// input records; output fragments are records of the same shape.
#[derive(Clone, Debug, PartialEq)]
pub struct AlignmentRecord {
    /// Record identifier.
    pub qname: Vec<u8>,
    /// Strand and mapping flags, copied verbatim into fragments.
    pub flags: u16,
    /// Reference-sequence id.
    pub tid: i32,
    /// 0-based reference start position.
    pub pos: i64,
    /// Mapping quality.
    pub mapq: u8,
    /// Ordered CIGAR operation list.
    pub cigar: Vec<CigarOp>,
    /// Mate reference-sequence id.
    pub mtid: i32,
    /// Mate position.
    pub mpos: i64,
    /// Inferred insert size.
    pub insert_size: i64,
    /// Base sequence, one byte per read base.
    pub seq: Vec<u8>,
    /// Per-base qualities, same length as the sequence.
    pub qual: Vec<u8>,
    /// Read-group tag value, when one is attached.
    pub read_group: Option<String>,
}

impl View for AlignmentRecord {
    type V = RecordModel;

    open spec fn view(&self) -> RecordModel {
        RecordModel {
            qname: self.qname@,
            flags: self.flags,
            tid: self.tid,
            pos: self.pos as int,
            mapq: self.mapq,
            cigar: self.cigar@,
            mtid: self.mtid,
            mpos: self.mpos,
            insert_size: self.insert_size,
            seq: self.seq@,
            qual: self.qual@,
            read_group: match self.read_group {
                Some(s) => Some(s@),
                None => None,
            },
        }
    }
}

impl AlignmentRecord {
    /// Well-formedness: qualities match the sequence, the CIGAR's total
    /// query-consuming length equals the stored sequence length, and the
    /// reference span fits the position type.
    pub open spec fn wf(self) -> bool {
        &&& self.qual@.len() == self.seq@.len()
        &&& query_len(self.cigar@) == self.seq@.len()
        &&& ref_len(self.cigar@) <= i64::MAX
        &&& self.pos + ref_len(self.cigar@) <= i64::MAX
    }
}

/// The decimal digits of `n`, most significant first.
pub open spec fn dec_bytes(n: nat) -> Seq<u8>
    decreases n,
{
    if n < 10 {
        seq![(48 + n) as u8]
    } else {
        dec_bytes(n / 10).push((48 + n % 10) as u8)
    }
}

/// The identifier of fragment `idx` of a record named `qname`: the original
/// name, one dash, and the decimal index with no padding.
pub open spec fn fragment_name(qname: Seq<u8>, idx: nat) -> Seq<u8> {
    qname + seq![45u8] + dec_bytes(idx)
}

pub proof fn lemma_dec_bytes_len(n: nat)
    ensures
        1 <= dec_bytes(n).len(),
        n >= 10 ==> 2 <= dec_bytes(n).len(),
    decreases n,
{
    if n >= 10 {
        lemma_dec_bytes_len(n / 10);
    }
}

/// Distinct numbers have distinct decimal representations.
pub proof fn lemma_dec_bytes_injective(a: nat, b: nat)
    requires
        a != b,
    ensures
        dec_bytes(a) != dec_bytes(b),
    decreases a + b,
{
    lemma_dec_bytes_len(a);
    lemma_dec_bytes_len(b);
    if a < 10 && b < 10 {
        assert(dec_bytes(a)[0] != dec_bytes(b)[0]);
    } else if a < 10 {
        assert(dec_bytes(a).len() < dec_bytes(b).len());
    } else if b < 10 {
        assert(dec_bytes(b).len() < dec_bytes(a).len());
    } else {
        if a % 10 != b % 10 {
            assert(dec_bytes(a).last() != dec_bytes(b).last());
        } else {
            assert(a / 10 != b / 10);
            lemma_dec_bytes_injective(a / 10, b / 10);
            if dec_bytes(a) == dec_bytes(b) {
                assert(dec_bytes(a / 10) =~= dec_bytes(b / 10)) by {
                    assert(dec_bytes(a).drop_last() =~= dec_bytes(a / 10));
                    assert(dec_bytes(b).drop_last() =~= dec_bytes(b / 10));
                }
            }
        }
    }
}

/// Distinct fragment indices give distinct fragment identifiers.
pub proof fn lemma_fragment_name_injective(qname: Seq<u8>, i: nat, j: nat)
    requires
        i != j,
    ensures
        fragment_name(qname, i) != fragment_name(qname, j),
{
    lemma_dec_bytes_injective(i, j);
    if fragment_name(qname, i) == fragment_name(qname, j) {
        let p = qname.len() + 1;
        assert(fragment_name(qname, i).len() == p + dec_bytes(i).len());
        assert(fragment_name(qname, j).len() == p + dec_bytes(j).len());
        assert(dec_bytes(i) =~= dec_bytes(j)) by {
            assert forall|k: int| 0 <= k < dec_bytes(i).len() implies dec_bytes(i)[k] == dec_bytes(
                j,
            )[k] by {
                assert(fragment_name(qname, i)[p + k] == dec_bytes(i)[k]);
                assert(fragment_name(qname, j)[p + k] == dec_bytes(j)[k]);
            }
        }
    }
}

/// Appends the decimal digits of `n` to `out`.
fn push_dec_bytes(out: &mut Vec<u8>, n: u64)
    ensures
        final(out)@ == old(out)@ + dec_bytes(n as nat),
    decreases n,
{
    if n < 10 {
        out.push(48 + n as u8);
        proof {
            assert(out@ =~= old(out)@ + dec_bytes(n as nat));
        }
    } else {
        push_dec_bytes(out, n / 10);
        out.push(48 + (n % 10) as u8);
        proof {
            assert(out@ =~= old(out)@ + dec_bytes(n as nat));
        }
    }
}

/// Builds the identifier of fragment `idx`: `qname`, a dash, the index.
pub fn fragment_qname(qname: &Vec<u8>, idx: u64) -> (r: Vec<u8>)
    ensures
        r@ == fragment_name(qname@, idx as nat),
{
    let mut r: Vec<u8> = Vec::new();
    let mut i: usize = 0;
    while i < qname.len()
        invariant
            i <= qname@.len(),
            r@ == qname@.subrange(0, i as int),
        decreases qname@.len() - i,
    {
        r.push(qname[i]);
        i = i + 1;
        proof {
            assert(r@ =~= qname@.subrange(0, i as int));
        }
    }
    assert(r@ =~= qname@);
    r.push(45);
    let ghost mid = r@;
    assert(mid =~= qname@ + seq![45u8]);
    push_dec_bytes(&mut r, idx);
    proof {
        assert(r@ =~= fragment_name(qname@, idx as nat));
    }
    r
}

/// Copies the byte range `[start, end)` of `v` into a fresh vector.
pub fn copy_range(v: &Vec<u8>, start: usize, end: usize) -> (r: Vec<u8>)
    requires
        start <= end,
        end <= v@.len(),
    ensures
        r@ == v@.subrange(start as int, end as int),
{
    let mut r: Vec<u8> = Vec::new();
    let mut i: usize = start;
    while i < end
        invariant
            start <= i <= end,
            end <= v@.len(),
            r@ == v@.subrange(start as int, i as int),
        decreases end - i,
    {
        r.push(v[i]);
        i = i + 1;
        proof {
            assert(r@ =~= v@.subrange(start as int, i as int));
        }
    }
    r
}

} // verus!
