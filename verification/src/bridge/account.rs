//! Account addresses.
use vstd::prelude::*;
use vstd::utf8::{encode_utf8, is_ascii_chars_encode_utf8};

use crate::bytes::le_bytes;
use crate::hash::{
    blake3_digest, framed, framed_all, part_views, preimage, protocol_digest, ProtocolHasher,
};

verus! {

/// The native fee and transfer resource.
pub const VM_XRD: [u8; 16] = [
    0x58, 0x58, 0x58, 0x58, 0x58, 0x58, 0x58, 0x58, 0x58, 0x58, 0x58, 0x58, 0x58, 0x58, 0x58, 0x58,
];

/// The hash domain of account addresses.
pub open spec fn account_domain() -> Seq<u8> {
    seq![
        104u8, 121u8, 112u8, 101u8, 114u8, 115u8, 99u8, 97u8, 108u8, 101u8, 47u8, 101u8, 110u8,
        103u8, 105u8, 110u8, 101u8, 45u8, 118u8, 109u8, 47u8, 97u8, 99u8, 99u8, 111u8, 117u8,
        110u8, 116u8, 45u8, 97u8, 100u8, 100u8, 114u8, 101u8, 115u8, 115u8,
    ]
}

/// The account that a public key owns: the first half of the protocol hash of
/// the key.
pub open spec fn account_of(public_key: Seq<u8>) -> Seq<u8> {
    protocol_digest(account_domain(), seq![public_key]).subrange(0, 16)
}

/// The account that a public key owns.
#[must_use]
pub fn vm_account_address(public_key: &[u8; 32]) -> (address: [u8; 16])
    ensures
        address@ == account_of(public_key@),
{
    let domain: [u8; 36] = [
        104, 121, 112, 101, 114, 115, 99, 97, 108, 101, 47, 101, 110, 103, 105, 110, 101, 45, 118,
        109, 47, 97, 99, 99, 111, 117, 110, 116, 45, 97, 100, 100, 114, 101, 115, 115,
    ];
    let parts: [&[u8]; 1] = [public_key.as_slice()];
    let digest = ProtocolHasher.hash(domain.as_slice(), parts.as_slice());
    proof {
        assert(domain@ =~= account_domain());
        assert(part_views(parts@) =~= seq![public_key@]);
    }
    let mut address: [u8; 16] = [0; 16];
    let mut i: usize = 0;
    while i < 16
        invariant
            i <= 16,
            forall|j: int| 0 <= j < i ==> address@[j] == digest.0@[j],
        decreases 16 - i,
    {
        address[i] = digest.0[i];
        i = i + 1;
    }
    assert(address@ =~= digest.0@.subrange(0, 16));
    address
}

/// An account is the first sixteen bytes of the digest of its key, framed behind
/// the framed domain of account addresses.
pub proof fn law_an_account_heads_its_keys_digest(public_key: Seq<u8>)
    ensures
        account_domain() == encode_utf8("hyperscale/engine-vm/account-address"@),
        account_of(public_key) == blake3_digest(
            le_bytes(36, 8) + account_domain() + le_bytes(public_key.len(), 8) + public_key,
        ).subrange(0, 16),
{
    reveal_strlit("hyperscale/engine-vm/account-address");
    let text = "hyperscale/engine-vm/account-address"@;
    is_ascii_chars_encode_utf8(text);
    assert(account_domain() =~= encode_utf8(text));
    let parts = seq![public_key];
    assert(parts.drop_last() =~= Seq::<Seq<u8>>::empty());
    assert(framed_all(parts.drop_last()) =~= Seq::<u8>::empty());
    assert(framed_all(parts) =~= framed(public_key));
    assert(preimage(account_domain(), parts) =~= le_bytes(36, 8) + account_domain() + le_bytes(
        public_key.len(),
        8,
    ) + public_key);
}

} // verus!
