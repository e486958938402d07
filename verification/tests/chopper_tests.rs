use chop_reads::alignment_chopper::AlignmentChopper;
use chop_reads::cigar::CigarOp;
use chop_reads::record::AlignmentRecord;

fn make_record(
    qname: &str,
    seq: &str,
    base_quals: &str,
    cigar: &Vec<CigarOp>,
    pos: i64,
) -> AlignmentRecord {
    AlignmentRecord {
        qname: qname.as_bytes().to_vec(),
        flags: 0,
        tid: 1,
        pos,
        mapq: 60,
        cigar: cigar.clone(),
        mtid: -1,
        mpos: -1,
        insert_size: 0,
        seq: seq.as_bytes().to_vec(),
        qual: base_quals.as_bytes().to_vec(),
        read_group: None,
    }
}

#[test]
fn simple_test() {
    let chopper_no_edges = AlignmentChopper::new(5, 5, false, None);
    let chopper_with_edges = AlignmentChopper::new(5, 0, false, None);

    let cigar = vec![
        CigarOp::Match(4),
        CigarOp::Del(5),
        CigarOp::Match(2),
        CigarOp::Ins(4),
        CigarOp::SoftClip(3),
    ];
    let rec = make_record("test", "AGTCGATGCATGC", "?!/??50(?/321", &cigar, 100);

    let cigar1 = vec![CigarOp::Match(4), CigarOp::Del(5), CigarOp::Match(1)];
    let rec1 = make_record("test-0", "AGTCG", "?!/??", &cigar1, 100);

    let cigar2 = vec![CigarOp::Match(1), CigarOp::Ins(4)];
    let rec2 = make_record("test-1", "ATGCA", "50(?/", &cigar2, 110);

    let cigar3 = vec![CigarOp::SoftClip(3)];
    let rec3 = make_record("test-2", "TGC", "321", &cigar3, 111);

    assert_eq!(chopper_no_edges.chop_read(&rec), vec![rec1.clone(), rec2.clone()]);
    assert_eq!(chopper_with_edges.chop_read(&rec), vec![rec1, rec2, rec3]);
}

#[test]
fn test_pos_with_starting_softclip() {
    let chopper_with_edges = AlignmentChopper::new(5, 0, false, None);

    let cigar = vec![
        CigarOp::SoftClip(4),
        CigarOp::Equal(1),
        CigarOp::Del(4),
        CigarOp::Match(2),
        CigarOp::Ins(4),
        CigarOp::SoftClip(3),
    ];
    let rec = make_record("test", "AGTCGATGCATGCA", "?!/??50(?/3210", &cigar, 100);

    let cigar1 = vec![CigarOp::SoftClip(4), CigarOp::Equal(1)];
    let rec1 = make_record("test-0", "AGTCG", "?!/??", &cigar1, 100);

    let cigar2 = vec![CigarOp::Del(4), CigarOp::Match(2), CigarOp::Ins(3)];
    let rec2 = make_record("test-1", "ATGCA", "50(?/", &cigar2, 101);

    let cigar3 = vec![CigarOp::Ins(1), CigarOp::SoftClip(3)];
    let rec3 = make_record("test-2", "TGCA", "3210", &cigar3, 107);

    assert_eq!(chopper_with_edges.chop_read(&rec), vec![rec1, rec2, rec3]);
}

#[test]
fn skip_softclips_test() {
    let chopper_skip_softclips_no_edges = AlignmentChopper::new(5, 5, true, None);
    let chopper_skip_softclips_with_edges = AlignmentChopper::new(5, 0, true, None);

    let cigar = vec![
        CigarOp::SoftClip(1),
        CigarOp::Match(4),
        CigarOp::Del(5),
        CigarOp::Match(2),
        CigarOp::Ins(4),
        CigarOp::Equal(1),
        CigarOp::SoftClip(3),
    ];
    let rec = make_record("test", "CAGTCGATGCATGCG", "??!/??50(?/3210", &cigar, 100);

    let cigar1 = vec![CigarOp::Match(4), CigarOp::Del(5), CigarOp::Match(1)];
    let rec1 = make_record("test-0", "AGTCG", "?!/??", &cigar1, 100);

    let cigar2 = vec![CigarOp::Match(1), CigarOp::Ins(4)];
    let rec2 = make_record("test-1", "ATGCA", "50(?/", &cigar2, 110);

    let cigar3 = vec![CigarOp::Equal(1)];
    let rec3 = make_record("test-2", "T", "3", &cigar3, 111);

    assert_eq!(
        chopper_skip_softclips_no_edges.chop_read(&rec),
        vec![rec1.clone(), rec2.clone()]
    );
    assert_eq!(
        chopper_skip_softclips_with_edges.chop_read(&rec),
        vec![rec1, rec2, rec3]
    );
}

#[test]
fn large_clips_test() {}

#[test]
fn leading_softclip_skipped_from_slice_start() {
    // With clip skipping, a leading soft-clip base leaves the slice start and
    // never appears in an emitted CIGAR; the emitted bases shrink accordingly.
    let chopper = AlignmentChopper::new(5, 5, true, None);

    let cigar = vec![
        CigarOp::SoftClip(1),
        CigarOp::Match(4),
        CigarOp::Del(5),
        CigarOp::Match(2),
        CigarOp::Ins(4),
        CigarOp::SoftClip(3),
    ];
    let rec = make_record("test", "CAGTCGATGCATGC", "??!/??50(?/321", &cigar, 100);

    let frags = chopper.chop_read(&rec);
    assert_eq!(frags.len(), 2);
    assert_eq!(frags[0].seq, b"AGTCG".to_vec());
    assert_eq!(frags[1].seq, b"ATGCA".to_vec());
    let emitted: usize = frags.iter().map(|f| f.seq.len()).sum();
    assert_eq!(emitted, 10);
    for f in &frags {
        for op in &f.cigar {
            assert!(!matches!(op, CigarOp::SoftClip(_)));
            assert!(!matches!(op, CigarOp::HardClip(_)));
        }
    }
}

#[test]
fn hard_clips_trimmed_at_both_ends() {
    let chopper = AlignmentChopper::new(5, 0, true, None);

    let cigar = vec![
        CigarOp::HardClip(2),
        CigarOp::SoftClip(1),
        CigarOp::Match(4),
        CigarOp::SoftClip(3),
        CigarOp::HardClip(2),
    ];
    let rec = make_record("test", "CAGTCTGC", "????????", &cigar, 50);

    let expected_cigar = vec![CigarOp::Match(4)];
    let expected = make_record("test-0", "AGTC", "????", &expected_cigar, 50);
    assert_eq!(chopper.chop_read(&rec), vec![expected]);
}

#[test]
fn long_match_spans_several_chunks() {
    let chopper = AlignmentChopper::new(5, 1, false, None);

    let cigar = vec![CigarOp::Match(12)];
    let rec = make_record("test", "AGTCGATGCATG", "?!/??50(?/32", &cigar, 100);

    let expected = vec![
        make_record("test-0", "AGTCG", "?!/??", &vec![CigarOp::Match(5)], 100),
        make_record("test-1", "ATGCA", "50(?/", &vec![CigarOp::Match(5)], 105),
        make_record("test-2", "TG", "32", &vec![CigarOp::Match(2)], 110),
    ];
    assert_eq!(chopper.chop_read(&rec), expected);
}

#[test]
fn exact_multiple_leaves_no_empty_fragment() {
    // A query length that is an exact multiple of the chunk size ends with
    // nothing in progress; no empty trailing fragment is emitted, even with
    // min_length 0.
    let chopper = AlignmentChopper::new(5, 0, false, None);

    let cigar = vec![CigarOp::Match(10)];
    let rec = make_record("test", "AGTCGATGCA", "?!/??50(?/", &cigar, 100);

    let expected = vec![
        make_record("test-0", "AGTCG", "?!/??", &vec![CigarOp::Match(5)], 100),
        make_record("test-1", "ATGCA", "50(?/", &vec![CigarOp::Match(5)], 105),
    ];
    assert_eq!(chopper.chop_read(&rec), expected);
}

#[test]
fn chunk_equal_to_length_is_a_no_op() {
    // A record exactly one chunk wide comes back as a single fragment
    // identical to the input but for the identifier suffix.
    let chopper = AlignmentChopper::new(5, 0, false, None);

    let cigar = vec![CigarOp::Match(2), CigarOp::Ins(3)];
    let rec = make_record("test", "AGTCG", "?!/??", &cigar, 100);

    let expected = make_record("test-0", "AGTCG", "?!/??", &cigar, 100);
    assert_eq!(chopper.chop_read(&rec), vec![expected]);
}

#[test]
fn short_trailing_remainder_is_dropped() {
    let chopper = AlignmentChopper::new(5, 1, false, None);

    let cigar = vec![CigarOp::Match(3)];
    let rec = make_record("test", "AGT", "?!/", &cigar, 100);
    let expected = make_record("test-0", "AGT", "?!/", &vec![CigarOp::Match(3)], 100);
    assert_eq!(chopper.chop_read(&rec), vec![expected]);

    let strict = AlignmentChopper::new(5, 4, false, None);
    assert_eq!(strict.chop_read(&rec), vec![]);
}

#[test]
fn long_deletion_kept_whole_in_one_fragment() {
    let chopper = AlignmentChopper::new(5, 1, false, None);

    let cigar = vec![CigarOp::Match(2), CigarOp::Del(100), CigarOp::Match(3)];
    let rec = make_record("test", "AGTCG", "?!/??", &cigar, 100);

    let expected = make_record("test-0", "AGTCG", "?!/??", &cigar, 100);
    assert_eq!(chopper.chop_read(&rec), vec![expected]);
}

#[test]
fn fragment_indices_reach_two_digits() {
    let chopper = AlignmentChopper::new(1, 1, false, None);

    let cigar = vec![CigarOp::Match(11)];
    let rec = make_record("test", "AGTCGATGCAT", "?!/??50(?/3", &cigar, 100);

    let frags = chopper.chop_read(&rec);
    assert_eq!(frags.len(), 11);
    assert_eq!(frags[9].qname, b"test-9".to_vec());
    assert_eq!(frags[10].qname, b"test-10".to_vec());
    assert_eq!(frags[10].pos, 110);
}

#[test]
fn read_group_replaces_and_other_tags_drop() {
    let tagged = AlignmentChopper::new(10, 0, false, Some(String::from("library1")));
    let untagged = AlignmentChopper::new(10, 0, false, None);

    let cigar = vec![CigarOp::Match(4)];
    let mut rec = make_record("test", "AGTC", "?!/?", &cigar, 100);
    rec.read_group = Some(String::from("original_group"));

    let out_tagged = tagged.chop_read(&rec);
    assert_eq!(out_tagged.len(), 1);
    assert_eq!(out_tagged[0].read_group, Some(String::from("library1")));

    let out_untagged = untagged.chop_read(&rec);
    assert_eq!(out_untagged.len(), 1);
    assert_eq!(out_untagged[0].read_group, None);
}

#[test]
fn fixed_fields_copied_verbatim() {
    let chopper = AlignmentChopper::new(3, 1, false, None);

    let cigar = vec![CigarOp::Match(6)];
    let mut rec = make_record("test", "AGTCGA", "?!/??5", &cigar, 7);
    rec.flags = 16;
    rec.tid = 4;
    rec.mapq = 33;
    rec.mtid = 2;
    rec.mpos = 999;
    rec.insert_size = -45;

    let frags = chopper.chop_read(&rec);
    assert_eq!(frags.len(), 2);
    for f in &frags {
        assert_eq!(f.flags, 16);
        assert_eq!(f.tid, 4);
        assert_eq!(f.mapq, 33);
        assert_eq!(f.mtid, 2);
        assert_eq!(f.mpos, 999);
        assert_eq!(f.insert_size, -45);
    }
    assert_eq!(frags[0].pos, 7);
    assert_eq!(frags[1].pos, 10);
}

#[test]
fn empty_cigar_and_sequence() {
    let permissive = AlignmentChopper::new(5, 0, false, None);
    let strict = AlignmentChopper::new(5, 1, false, None);

    let rec = make_record("test", "", "", &vec![], 100);

    let expected = make_record("test-0", "", "", &vec![], 100);
    assert_eq!(permissive.chop_read(&rec), vec![expected]);
    assert_eq!(strict.chop_read(&rec), vec![]);
}

#[test]
fn padding_and_refskip_behaviour() {
    // Padding consumes nothing; a reference skip advances the position of the
    // following fragment without consuming read bases.
    let chopper = AlignmentChopper::new(2, 1, false, None);

    let cigar = vec![
        CigarOp::Match(2),
        CigarOp::Pad(3),
        CigarOp::RefSkip(10),
        CigarOp::Match(2),
    ];
    let rec = make_record("test", "AGTC", "?!/?", &cigar, 100);

    let expected = vec![
        make_record("test-0", "AG", "?!", &vec![CigarOp::Match(2)], 100),
        make_record(
            "test-1",
            "TC",
            "/?",
            &vec![CigarOp::Pad(3), CigarOp::RefSkip(10), CigarOp::Match(2)],
            102,
        ),
    ];
    assert_eq!(chopper.chop_read(&rec), expected);
}
