//! Cells by the part they play for their owner.
use vstd::prelude::*;

use crate::types::SubstateKey;

verus! {

/// A cell by the part it plays for its owner. The effect vocabulary derives
/// the cell's key from it.
#[derive(Clone, Copy, Debug, PartialEq, Eq)]
pub enum CellRole {
    /// The vault of a resource.
    Vault {
        /// The owner.
        owner: [u8; 16],
        /// The resource.
        resource: [u8; 16],
    },
    /// The leaf that randomness is stamped into.
    Entropy {
        /// The owner.
        owner: [u8; 16],
    },
    /// A pool's record of a validator.
    Validator {
        /// The pool.
        owner: [u8; 16],
        /// The validator.
        id: u64,
    },
    /// A published package.
    Package {
        /// The publisher.
        owner: [u8; 16],
        /// The package's content address.
        package: [u8; 32],
    },
}

/// The role that a published package is filed under, in the reserved band.
pub const PACKAGE_ROLE: u16 = 0xFFFE;

/// What a child key is derived from, besides its owner and its role.
#[derive(Debug, PartialEq, Eq)]
pub enum Material {
    /// The canonical bytes of an address literal.
    Address([u8; 16]),
    /// Bytes as they stand.
    Raw(Vec<u8>),
}

/// What material says.
pub ghost enum MaterialView {
    /// The canonical bytes of an address literal.
    Address([u8; 16]),
    /// Bytes as they stand.
    Raw(Seq<u8>),
}

impl View for Material {
    type V = MaterialView;

    open spec fn view(&self) -> MaterialView {
        match self {
            Material::Address(a) => MaterialView::Address(*a),
            Material::Raw(b) => MaterialView::Raw(b@),
        }
    }
}

/// The role of a child key.
#[derive(Clone, Copy, Debug, PartialEq, Eq, Structural)]
pub enum KeyRole {
    /// The vocabulary's vault role.
    Vault,
    /// The vocabulary's entropy role.
    Entropy,
    /// A reserved number.
    Reserved(u16),
}

/// What a child key is derived from.
#[derive(Debug, PartialEq, Eq)]
pub struct ChildKeyParts {
    /// The owner.
    pub owner: [u8; 16],
    /// The role.
    pub role: KeyRole,
    /// The material.
    pub material: Vec<Material>,
}

/// What a child key is derived from.
pub ghost struct ChildKeyView {
    /// The owner.
    pub owner: [u8; 16],
    /// The role.
    pub role: KeyRole,
    /// The material.
    pub material: Seq<MaterialView>,
}

impl View for ChildKeyParts {
    type V = ChildKeyView;

    open spec fn view(&self) -> ChildKeyView {
        ChildKeyView {
            owner: self.owner,
            role: self.role,
            material: self.material@.map_values(|m: Material| m@),
        }
    }
}

/// What a cell's key is derived from: a vault is told apart by its resource, a
/// package by its content address, and an owner has one entropy leaf. A
/// validator record is keyed by the pool's own package, and nothing is said of
/// it here.
pub open spec fn child_key_of(role: CellRole) -> Option<ChildKeyView> {
    match role {
        CellRole::Vault { owner, resource } => Some(
            ChildKeyView {
                owner,
                role: KeyRole::Vault,
                material: seq![MaterialView::Address(resource)],
            },
        ),
        CellRole::Entropy { owner } => Some(
            ChildKeyView { owner, role: KeyRole::Entropy, material: seq![] },
        ),
        CellRole::Package { owner, package } => Some(
            ChildKeyView {
                owner,
                role: KeyRole::Reserved(PACKAGE_ROLE),
                material: seq![MaterialView::Raw(package@)],
            },
        ),
        CellRole::Validator { .. } => None,
    }
}

/// What a cell's key is derived from; nothing for a validator record.
pub fn child_key_parts(role: &CellRole) -> (r: Option<ChildKeyParts>)
    ensures
        match r {
            Some(p) => child_key_of(*role) == Some(p@),
            None => child_key_of(*role) is None,
        },
{
    let mut material: Vec<Material> = Vec::new();
    let p = match role {
        CellRole::Vault { owner, resource } => {
            material.push(Material::Address(*resource));
            ChildKeyParts { owner: *owner, role: KeyRole::Vault, material }
        },
        CellRole::Entropy { owner } => {
            ChildKeyParts { owner: *owner, role: KeyRole::Entropy, material }
        },
        CellRole::Package { owner, package } => {
            material.push(Material::Raw(copy_slice(package.as_slice())));
            ChildKeyParts { owner: *owner, role: KeyRole::Reserved(PACKAGE_ROLE), material }
        },
        CellRole::Validator { .. } => return None,
    };
    assert(p@.material =~= child_key_of(*role)->0.material);
    Some(p)
}

fn copy_slice(bytes: &[u8]) -> (c: Vec<u8>)
    ensures
        c@ == bytes@,
{
    let mut c: Vec<u8> = Vec::new();
    c.extend_from_slice(bytes);
    assert(c@ =~= bytes@);
    c
}

/// A derivation that has a key for every role, and one key only.
pub open spec fn derives<K: Fn(CellRole) -> SubstateKey>(f: K) -> bool {
    &&& forall|role: CellRole| call_requires(f, (role,))
    &&& forall|role: CellRole, a: SubstateKey, b: SubstateKey|
        call_ensures(f, (role,), a) && call_ensures(f, (role,), b) ==> a == b
}

/// The key that a derivation gives a role.
pub open spec fn key_by<K: Fn(CellRole) -> SubstateKey>(f: K, role: CellRole) -> SubstateKey {
    choose|key: SubstateKey| call_ensures(f, (role,), key)
}

/// The key that a derivation gives a role.
pub fn derive_key<K: Fn(CellRole) -> SubstateKey>(f: &K, role: CellRole) -> (key: SubstateKey)
    requires
        derives(*f),
    ensures
        key == key_by(*f, role),
{
    let key = (*f)(role);
    assert(call_ensures(*f, (role,), key));
    key
}

/// The key of an owner's vault of a resource.
pub fn vault_key<K: Fn(CellRole) -> SubstateKey>(
    f: &K,
    owner: [u8; 16],
    resource: [u8; 16],
) -> (key: SubstateKey)
    requires
        derives(*f),
    ensures
        key == key_by(*f, CellRole::Vault { owner, resource }),
{
    derive_key(f, CellRole::Vault { owner, resource })
}

/// The key of the leaf that an owner's randomness is stamped into.
pub fn entropy_key<K: Fn(CellRole) -> SubstateKey>(f: &K, owner: [u8; 16]) -> (key: SubstateKey)
    requires
        derives(*f),
    ensures
        key == key_by(*f, CellRole::Entropy { owner }),
{
    derive_key(f, CellRole::Entropy { owner })
}

/// The key of the cell that a publisher's package is stored in.
pub fn package_key<K: Fn(CellRole) -> SubstateKey>(
    f: &K,
    publisher: [u8; 16],
    package: [u8; 32],
) -> (key: SubstateKey)
    requires
        derives(*f),
    ensures
        key == key_by(*f, CellRole::Package { owner: publisher, package }),
{
    derive_key(f, CellRole::Package { owner: publisher, package })
}

/// What a key is derived from tells the cells apart: two roles with the same parts
/// are one role, of one owner and one resource or package. A vault is told by its
/// resource's address, a package by its content address as it stands, and an
/// entropy leaf by its owner alone.
pub proof fn law_a_childs_parts_tell_its_role(a: CellRole, b: CellRole)
    requires
        child_key_of(a) is Some,
        child_key_of(a) == child_key_of(b),
    ensures
        a == b,
        match a {
            CellRole::Vault { owner, resource } => child_key_of(a)->0.owner == owner && child_key_of(
                a,
            )->0.role is Vault && child_key_of(a)->0.material.len() == 1 && child_key_of(
                a,
            )->0.material[0] == MaterialView::Address(resource),
            CellRole::Entropy { owner } => child_key_of(a)->0.owner == owner && child_key_of(
                a,
            )->0.role is Entropy && child_key_of(a)->0.material.len() == 0,
            CellRole::Package { owner, package } => child_key_of(a)->0.owner == owner
                && child_key_of(a)->0.role == KeyRole::Reserved(0xFFFE) && child_key_of(
                a,
            )->0.material.len() == 1 && child_key_of(a)->0.material[0] == MaterialView::Raw(
                package@,
            ),
            CellRole::Validator { .. } => false,
        },
{
    let x = child_key_of(a)->0.material;
    let y = child_key_of(b)->0.material;
    match (a, b) {
        (CellRole::Vault { resource: r, .. }, CellRole::Vault { resource: s, .. }) => {
            assert(x[0] == MaterialView::Address(r) && y[0] == MaterialView::Address(s));
        },
        (CellRole::Package { package: p, .. }, CellRole::Package { package: q, .. }) => {
            assert(x[0] == MaterialView::Raw(p@) && y[0] == MaterialView::Raw(q@));
            assert(p =~= q);
        },
        _ => {},
    }
}

} // verus!
