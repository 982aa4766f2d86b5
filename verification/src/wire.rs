//! Big-endian integers, as the embedded cameras send and expect them.

use vstd::prelude::*;

verus! {

/// The four bytes of `v`, most significant first.
pub open spec fn be_bytes(v: u32) -> Seq<u8> {
    seq![
        (v / 0x100_0000) as u8,
        (v / 0x1_0000 % 0x100) as u8,
        (v / 0x100 % 0x100) as u8,
        (v % 0x100) as u8,
    ]
}

/// The number whose four bytes stand at `at` in `data`, most significant first.
pub open spec fn be_u32(data: Seq<u8>, at: int) -> u32 {
    (data[at] * 0x100_0000 + data[at + 1] * 0x1_0000 + data[at + 2] * 0x100 + data[at + 3]) as u32
}

/// The number whose eight bytes stand at `at` in `data`, most significant first.
pub open spec fn be_u64(data: Seq<u8>, at: int) -> u64 {
    (be_u32(data, at) * 0x1_0000_0000 + be_u32(data, at + 4)) as u64
}

/// The numbers of `values` one after the other, four bytes each.
pub open spec fn be_all(values: Seq<u32>) -> Seq<u8>
    decreases values.len(),
{
    if values.len() == 0 {
        seq![]
    } else {
        be_all(values.drop_last()) + be_bytes(values.last())
    }
}

/// Append `v`, most significant byte first.
pub fn push_u32(data: &mut Vec<u8>, v: u32)
    ensures
        final(data)@ == old(data)@ + be_bytes(v),
{
    data.push((v / 0x100_0000) as u8);
    data.push((v / 0x1_0000 % 0x100) as u8);
    data.push((v / 0x100 % 0x100) as u8);
    data.push((v % 0x100) as u8);
    assert(data@ =~= old(data)@ + be_bytes(v));
}

/// Append `v` in two's complement, most significant byte first.
pub fn push_i32(data: &mut Vec<u8>, v: i32)
    ensures
        final(data)@ == old(data)@ + be_bytes(v as u32),
{
    push_u32(data, #[verifier::truncate] (v as u32));
}

/// Append every number of `values`.
pub fn push_all(data: &mut Vec<u8>, values: &Vec<u32>)
    ensures
        final(data)@ == old(data)@ + be_all(values@),
{
    let ghost before = data@;
    let mut i: usize = 0;
    assert(values@.take(0) =~= seq![]);
    while i < values.len()
        invariant
            i <= values.len(),
            data@ =~= before + be_all(values@.take(i as int)),
        decreases values.len() - i,
    {
        push_u32(data, values[i]);
        proof {
            let next = values@.take(i + 1);
            assert(next.drop_last() =~= values@.take(i as int));
            assert(next.last() == values@[i as int]);
        }
        i += 1;
    }
    assert(values@.take(i as int) =~= values@);
}

/// Append a run of bytes.
pub fn push_bytes(data: &mut Vec<u8>, bytes: &[u8])
    ensures
        final(data)@ == old(data)@ + bytes@,
{
    let ghost before = data@;
    let mut i: usize = 0;
    while i < bytes.len()
        invariant
            i <= bytes.len(),
            data@ =~= before + bytes@.take(i as int),
        decreases bytes.len() - i,
    {
        data.push(bytes[i]);
        i += 1;
    }
    assert(bytes@.take(i as int) =~= bytes@);
}

/// Read the number at `at`.
pub fn read_u32(data: &[u8], at: usize) -> (v: u32)
    requires
        at + 4 <= data@.len(),
    ensures
        v == be_u32(data@, at as int),
{
    let (a, b, c, d) = (data[at] as u32, data[at + 1] as u32, data[at + 2] as u32, data[at + 3] as u32);
    a * 0x100_0000 + b * 0x1_0000 + c * 0x100 + d
}

/// Read the eight-byte number at `at`.
pub fn read_u64(data: &[u8], at: usize) -> (v: u64)
    requires
        at + 8 <= data@.len(),
    ensures
        v == be_u64(data@, at as int),
{
    assert(data.len() <= usize::MAX);
    let high: u64 = read_u32(data, at) as u64;
    let low: u64 = read_u32(data, at + 4) as u64;
    high * 0x1_0000_0000 + low
}

/// Reading a number that was written gives it back, wherever it stands.
pub proof fn law_u32_round_trip(before: Seq<u8>, v: u32, after: Seq<u8>)
    ensures
        be_u32(before + be_bytes(v) + after, before.len() as int) == v,
{
    let data = before + be_bytes(v) + after;
    let at = before.len() as int;
    assert(data[at] == (v / 0x100_0000) as u8);
    assert(data[at + 1] == (v / 0x1_0000 % 0x100) as u8);
    assert(data[at + 2] == (v / 0x100 % 0x100) as u8);
    assert(data[at + 3] == (v % 0x100) as u8);
}

/// A signed number survives the trip through its unsigned wire form.
pub proof fn law_i32_round_trip(v: i32)
    ensures
        (v as u32) as i32 == v,
{
    assert((v as u32) as i32 == v) by (bit_vector);
}

/// `n` numbers take `4 * n` bytes.
pub proof fn law_be_all_len(values: Seq<u32>)
    ensures
        be_all(values).len() == 4 * values.len(),
    decreases values.len(),
{
    if values.len() > 0 {
        law_be_all_len(values.drop_last());
    }
}

/// The `i`-th number of a written run is read back at byte `4 * i` of the run.
pub proof fn law_be_all_round_trip(before: Seq<u8>, values: Seq<u32>, after: Seq<u8>, i: int)
    requires
        0 <= i < values.len(),
    ensures
        be_u32(before + be_all(values) + after, before.len() + 4 * i) == values[i],
    decreases values.len(),
{
    let head = values.drop_last();
    let tail = be_bytes(values.last());
    law_be_all_len(head);
    if i == values.len() - 1 {
        law_u32_round_trip(before + be_all(head), values.last(), after);
        assert(before + be_all(values) + after =~= (before + be_all(head)) + tail + after);
    } else {
        law_be_all_round_trip(before, head, tail + after, i);
        assert(before + be_all(values) + after =~= before + be_all(head) + (tail + after));
    }
}

/// The value of the four bytes at `at`, of which each counts 256 times the next.
pub open spec fn word(data: Seq<u8>, at: int) -> int {
    ((data[at] * 256 + data[at + 1]) * 256 + data[at + 2]) * 256 + data[at + 3]
}

/// The signed number of which `w` is the unsigned form: the upper half of the unsigned
/// ones stand for the negative.
pub open spec fn signed(w: int) -> int {
    if w < 0x8000_0000 {
        w
    } else {
        w - 0x1_0000_0000
    }
}

/// The number at a place is the value of its bytes.
pub proof fn lemma_word(data: Seq<u8>, at: int)
    ensures
        be_u32(data, at) == word(data, at),
        (be_u32(data, at) as i32) == signed(word(data, at)),
        0 <= word(data, at) <= u32::MAX,
{
    lemma_signed(be_u32(data, at));
}

/// Signed and unsigned forms of a number.
pub proof fn lemma_signed(u: u32)
    ensures
        (u as i32) == signed(u as int),
{
    assert(u < 0x8000_0000 ==> u as i32 == u) by (bit_vector);
    assert(u >= 0x8000_0000 ==> u as i32 == u - 0x1_0000_0000) by (bit_vector);
}

/// What is written is read back, behind what was there, which stays.
pub proof fn law_word_is_written_behind(data: &mut Vec<u8>, v: u32)
    requires
        call_ensures(push_u32, (data, v), ()),
    ensures
        final(data)@.len() == old(data)@.len() + 4,
        final(data)@.take(old(data)@.len() as int) == old(data)@,
        word(final(data)@, old(data)@.len() as int) == v,
{
    let before = old(data)@;
    assert(final(data)@.take(before.len() as int) =~= before);
    assert(final(data)@ =~= before + be_bytes(v) + Seq::<u8>::empty());
    law_u32_round_trip(before, v, Seq::empty());
    lemma_word(final(data)@, before.len() as int);
}

/// The same of a signed number.
pub proof fn law_signed_word_is_written_behind(data: &mut Vec<u8>, v: i32)
    requires
        call_ensures(push_i32, (data, v), ()),
    ensures
        final(data)@.len() == old(data)@.len() + 4,
        final(data)@.take(old(data)@.len() as int) == old(data)@,
        signed(word(final(data)@, old(data)@.len() as int)) == v,
{
    let before = old(data)@;
    assert(final(data)@.take(before.len() as int) =~= before);
    assert(final(data)@ =~= before + be_bytes(v as u32) + Seq::<u8>::empty());
    law_u32_round_trip(before, v as u32, Seq::empty());
    lemma_word(final(data)@, before.len() as int);
    law_i32_round_trip(v);
}

/// The same of a run of numbers.
pub proof fn law_words_are_written_behind(data: &mut Vec<u8>, values: &Vec<u32>, i: int)
    requires
        call_ensures(push_all, (data, values), ()),
        0 <= i < values@.len(),
    ensures
        final(data)@.len() == old(data)@.len() + 4 * values@.len(),
        final(data)@.take(old(data)@.len() as int) == old(data)@,
        word(final(data)@, old(data)@.len() + 4 * i) == values@[i],
{
    let before = old(data)@;
    law_be_all_len(values@);
    assert(final(data)@.take(before.len() as int) =~= before);
    assert(final(data)@ =~= before + be_all(values@) + Seq::<u8>::empty());
    law_be_all_round_trip(before, values@, Seq::empty(), i);
    lemma_word(final(data)@, before.len() + 4 * i);
}

/// A number is read from its bytes, the most significant first.
pub proof fn law_word_is_read(data: &[u8], at: usize, v: u32)
    requires
        call_ensures(read_u32, (data, at), v),
    ensures
        v == word(data@, at as int),
{
    lemma_word(data@, at as int);
}

/// A number of eight bytes is read as two of four, the more significant first.
pub proof fn law_long_word_is_read(data: &[u8], at: usize, v: u64)
    requires
        call_ensures(read_u64, (data, at), v),
    ensures
        v == word(data@, at as int) * 0x1_0000_0000 + word(data@, at + 4),
{
    lemma_word(data@, at as int);
    lemma_word(data@, at + 4);
}

} // verus!
