use vstd::prelude::*;

verus! {

/// The length of `vector` after padding it to `length`.
pub open spec fn padded_len(len: nat, length: nat) -> nat {
    if len < length {
        length
    } else {
        len
    }
}

/// Pads `vector` with zeros up to `length`; a vector that is already long enough is returned as
/// it is.
pub fn pad_vector(vector: &[u32], length: usize) -> (padded: Vec<u32>)
    ensures
        padded@.len() == padded_len(vector@.len(), length as nat),
        padded@.take(vector@.len() as int) == vector@,
        forall|i: int| vector@.len() <= i < padded@.len() ==> padded@[i] == 0,
{
    let mut padded: Vec<u32> = Vec::new();
    let mut i: usize = 0;
    while i < vector.len()
        invariant
            i <= vector@.len(),
            padded@ == vector@.take(i as int),
        decreases vector@.len() - i,
    {
        padded.push(vector[i]);
        i = i + 1;
    }
    assert(vector@.take(vector@.len() as int) =~= vector@);
    while padded.len() < length
        invariant
            vector@.len() <= padded@.len() <= padded_len(vector@.len(), length as nat),
            padded@.take(vector@.len() as int) == vector@,
            forall|j: int| vector@.len() <= j < padded@.len() ==> padded@[j] == 0,
        decreases length - padded@.len(),
    {
        let ghost before = padded@;
        padded.push(0);
        assert(padded@.take(vector@.len() as int) =~= before.take(vector@.len() as int));
    }
    padded
}

/// Pads the shorter of two vectors with zeros so that both have the length of the longer one.
pub fn pad_vectors_to_match(v1: &[u32], v2: &[u32]) -> (padded: (Vec<u32>, Vec<u32>))
    ensures
        padded.0@.len() == padded.1@.len(),
        padded.0@.len() == if v1@.len() < v2@.len() { v2@.len() } else { v1@.len() },
        padded.0@.take(v1@.len() as int) == v1@,
        padded.1@.take(v2@.len() as int) == v2@,
        forall|i: int| v1@.len() <= i < padded.0@.len() ==> padded.0@[i] == 0,
        forall|i: int| v2@.len() <= i < padded.1@.len() ==> padded.1@[i] == 0,
{
    let max_length = if v1.len() < v2.len() {
        v2.len()
    } else {
        v1.len()
    };
    (pad_vector(v1, max_length), pad_vector(v2, max_length))
}

} // verus!
