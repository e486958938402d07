//! Splits one sequence-alignment record into fragments of bounded read length.
//!
//! A record's CIGAR describes how its read aligns to a reference, as a list of
//! operations that consume read bases, reference bases, both, or neither. The
//! chopper walks that list once, splitting operations at chunk boundaries, and
//! materializes one output record per chunk: a slice of the read's sequence and
//! qualities, a CIGAR covering exactly that slice, and a reference position
//! advanced by the reference bases the earlier fragments consumed.

pub mod alignment_chopper;
pub mod cigar;
pub mod laws;
pub mod record;
