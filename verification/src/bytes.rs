//! Byte strings: comparison, copying and the big-endian form of integers.
use vstd::prelude::*;

verus! {

/// The value behind each element.
pub open spec fn views<T: View>(items: Seq<T>) -> Seq<T::V> {
    items.map_values(|item: T| item@)
}

/// `prefix + views([item])` is the view of the prefix extended by the item.
pub proof fn lemma_views_push<T: View>(items: Seq<T>, item: T)
    ensures
        views(items.push(item)) =~= views(items).push(item@),
        views(items.push(item)).drop_last() =~= views(items),
{
}

/// Taking a prefix commutes with taking views.
pub proof fn lemma_views_take<T: View>(items: Seq<T>, n: int)
    requires
        0 <= n < items.len(),
    ensures
        views(items).take(n + 1) =~= views(items).take(n).push(items[n]@),
        views(items).take(n + 1).drop_last() =~= views(items).take(n),
        views(items).take(n + 1).last() == items[n]@,
{
}

/// Whether two byte strings hold the same bytes.
pub fn same_bytes(left: &[u8], right: &[u8]) -> (same: bool)
    ensures
        same == (left@ == right@),
{
    if left.len() != right.len() {
        return false;
    }
    let mut i: usize = 0;
    while i < left.len()
        invariant
            i <= left.len(),
            left@.len() == right@.len(),
            forall|j: int| 0 <= j < i ==> left@[j] == right@[j],
        decreases left.len() - i,
    {
        if left[i] != right[i] {
            assert(left@[i as int] != right@[i as int]);
            return false;
        }
        i = i + 1;
    }
    assert(left@ =~= right@);
    true
}

/// A copy of a byte string.
pub fn copy_bytes(bytes: &[u8]) -> (copy: Vec<u8>)
    ensures
        copy@ == bytes@,
{
    vstd::slice::slice_to_vec(bytes)
}

/// Appends a byte string.
pub fn append_bytes(target: &mut Vec<u8>, bytes: &[u8])
    ensures
        final(target)@ == old(target)@ + bytes@,
{
    let ghost before = target@;
    target.extend_from_slice(bytes);
    assert(target@ =~= before + bytes@);
}

/// The eight bytes of an integer, most significant first.
pub open spec fn be_bytes_of(value: u64) -> Seq<u8> {
    seq![
        (value / 0x100_0000_0000_0000 % 256) as u8,
        (value / 0x1_0000_0000_0000 % 256) as u8,
        (value / 0x100_0000_0000 % 256) as u8,
        (value / 0x1_0000_0000 % 256) as u8,
        (value / 0x100_0000 % 256) as u8,
        (value / 0x1_0000 % 256) as u8,
        (value / 0x100 % 256) as u8,
        (value % 256) as u8,
    ]
}

/// The eight bytes of an integer, most significant first.
pub fn be_bytes(value: u64) -> (bytes: Vec<u8>)
    ensures
        bytes@ == be_bytes_of(value),
{
    let mut bytes: Vec<u8> = Vec::with_capacity(8);
    bytes.push((value / 0x100_0000_0000_0000 % 256) as u8);
    bytes.push((value / 0x1_0000_0000_0000 % 256) as u8);
    bytes.push((value / 0x100_0000_0000 % 256) as u8);
    bytes.push((value / 0x1_0000_0000 % 256) as u8);
    bytes.push((value / 0x100_0000 % 256) as u8);
    bytes.push((value / 0x1_0000 % 256) as u8);
    bytes.push((value / 0x100 % 256) as u8);
    bytes.push((value % 256) as u8);
    assert(bytes@ =~= be_bytes_of(value));
    bytes
}

/// Different integers have different bytes.
pub proof fn be_bytes_are_injective(left: u64, right: u64)
    requires
        be_bytes_of(left) == be_bytes_of(right),
    ensures
        left == right,
{
    let l = be_bytes_of(left);
    let r = be_bytes_of(right);
    assert(l[0] == r[0] && l[1] == r[1] && l[2] == r[2] && l[3] == r[3]);
    assert(l[4] == r[4] && l[5] == r[5] && l[6] == r[6] && l[7] == r[7]);
    assert(left == right) by (bit_vector)
        requires
            left / 0x100_0000_0000_0000 % 256 == right / 0x100_0000_0000_0000 % 256,
            left / 0x1_0000_0000_0000 % 256 == right / 0x1_0000_0000_0000 % 256,
            left / 0x100_0000_0000 % 256 == right / 0x100_0000_0000 % 256,
            left / 0x1_0000_0000 % 256 == right / 0x1_0000_0000 % 256,
            left / 0x100_0000 % 256 == right / 0x100_0000 % 256,
            left / 0x1_0000 % 256 == right / 0x1_0000 % 256,
            left / 0x100 % 256 == right / 0x100 % 256,
            left % 256 == right % 256,
    ;
}

} // verus!
