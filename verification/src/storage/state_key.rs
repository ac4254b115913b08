//! How a cell's key lies in the flat key space: the owner as the entity key,
//! one partition, the local half as the sort key. The layout is fixed here, and
//! a store that reads these keys follows it.
use vstd::prelude::*;

use crate::types::SubstateKey;

verus! {

/// The partition that every cell lies in.
pub const VM_PARTITION: u8 = 0;

/// The entity key is an owner.
pub open spec fn names_owner(key: Seq<u8>) -> bool {
    key.len() == 16
}

/// The entity key of an owner.
pub fn vm_db_node_key(owner: &[u8; 16]) -> (key: Vec<u8>)
    ensures
        key@ == owner@,
        names_owner(key@),
{
    let mut key: Vec<u8> = Vec::new();
    key.extend_from_slice(owner.as_slice());
    assert(key@ =~= owner@);
    key
}

fn half(bytes: &Vec<u8>, from: usize) -> (a: [u8; 16])
    requires
        from + 16 <= bytes@.len(),
    ensures
        a@ == bytes@.subrange(from as int, from + 16),
{
    let mut a: [u8; 16] = [0; 16];
    let mut i: usize = 0;
    while i < 16
        invariant
            i <= 16,
            from + 16 <= bytes.len(),
            forall|j: int| 0 <= j < i ==> a@[j] == bytes@[from + j],
        decreases 16 - i,
    {
        a[i] = bytes[from + i];
        i = i + 1;
    }
    assert(a@ =~= bytes@.subrange(from as int, from + 16));
    a
}

/// The owner that an entity key is; nothing for a key outside the namespace.
pub fn vm_db_node_key_owner(key: &Vec<u8>) -> (r: Option<[u8; 16]>)
    ensures
        match r {
            Some(owner) => names_owner(key@) && owner@ == key@,
            None => !names_owner(key@),
        },
{
    if key.len() == 16 {
        let owner = half(key, 0);
        assert(owner@ =~= key@);
        Some(owner)
    } else {
        None
    }
}

/// The flat key of a cell.
pub open spec fn flat(key: SubstateKey) -> Seq<u8> {
    key.owner@ + seq![VM_PARTITION] + key.local@
}

/// The flat key of a cell.
pub fn vm_flat_key(key: &SubstateKey) -> (flat_key: Vec<u8>)
    ensures
        flat_key@ == flat(*key),
{
    let mut out: Vec<u8> = Vec::new();
    out.extend_from_slice(key.owner.as_slice());
    out.push(VM_PARTITION);
    out.extend_from_slice(key.local.as_slice());
    assert(out@ =~= flat(*key));
    out
}

/// The cell that a flat key is of; nothing for a key outside the namespace.
pub fn vm_flat_key_parts(bytes: &Vec<u8>) -> (r: Option<SubstateKey>)
    ensures
        match r {
            Some(key) => flat(key) == bytes@,
            None => forall|key: SubstateKey| #[trigger] flat(key) != bytes@,
        },
{
    if bytes.len() != 33 || bytes[16] != VM_PARTITION {
        proof {
            assert forall|key: SubstateKey| #[trigger] flat(key) != bytes@ by {
                assert(flat(key).len() == 33);
                assert(flat(key)[16] == VM_PARTITION);
            }
        }
        return None;
    }
    let key = SubstateKey { owner: half(bytes, 0), local: half(bytes, 17) };
    assert(flat(key) =~= bytes@);
    Some(key)
}

/// A flat key names one cell.
pub proof fn law_flat_key_determines_cell(a: SubstateKey, b: SubstateKey)
    requires
        flat(a) == flat(b),
    ensures
        a == b,
{
    assert(a.owner@ =~= flat(a).take(16));
    assert(b.owner@ =~= flat(b).take(16));
    assert(a.local@ =~= flat(a).skip(17));
    assert(b.local@ =~= flat(b).skip(17));
    assert(a.owner =~= b.owner);
    assert(a.local =~= b.local);
}

/// How a cell's flat key lies in its bytes: sixteen of the owner, the partition
/// that every cell lies in, sixteen of the local half.
pub proof fn law_a_cells_flat_key_is_laid_out_in_order(key: SubstateKey)
    ensures
        flat(key).len() == 33,
        flat(key).subrange(0, 16) == key.owner@,
        flat(key)[16] == 0,
        flat(key).subrange(17, 33) == key.local@,
{
    assert(flat(key).subrange(0, 16) =~= key.owner@);
    assert(flat(key).subrange(17, 33) =~= key.local@);
}

} // verus!
