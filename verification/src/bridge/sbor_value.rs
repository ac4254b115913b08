//! Dynamic SBOR values: the shape every wire encoding here is written in.
use sbor::{basic_decode_with_depth_limit, basic_encode_with_depth_limit};
use sbor::{BasicValue, BasicValueKind, Value as Sbor};
use vstd::prelude::*;
use vstd::utf8::encode_utf8;

verus! {

/// The value kind of a byte.
pub const KIND_U8: u8 = 0x07;

/// The value kind of a string.
pub const KIND_TEXT: u8 = 0x0c;

/// The value kind of an array.
pub const KIND_LIST: u8 = 0x20;

/// The value kind of a tuple or struct.
pub const KIND_RECORD: u8 = 0x21;

/// The value kind of an enum.
pub const KIND_VARIANT: u8 = 0x22;

/// The most elements or bytes one collection or string may frame.
pub const MAX_SBOR_SIZE: usize = 0x0FFF_FFFF;

/// What a dynamic SBOR value holds.
pub enum Tree {
    /// A byte.
    U8(u8),
    /// A 16-bit number.
    U16(u16),
    /// A 32-bit number.
    U32(u32),
    /// A 64-bit number.
    U64(u64),
    /// A 128-bit number.
    U128(u128),
    /// A string.
    Text(Seq<char>),
    /// An enum variant: its discriminator and fields.
    Variant(u8, Seq<Tree>),
    /// An array: its element kind and elements.
    List(u8, Seq<Tree>),
    /// A tuple or struct: its fields.
    Record(Seq<Tree>),
    /// A value of a kind that no encoding here uses.
    Foreign,
}

/// The value kind of a tree; none for a foreign one.
pub open spec fn kind_of(t: Tree) -> Option<u8> {
    match t {
        Tree::U8(_) => Some(0x07u8),
        Tree::U16(_) => Some(0x08u8),
        Tree::U32(_) => Some(0x09u8),
        Tree::U64(_) => Some(0x0au8),
        Tree::U128(_) => Some(0x0bu8),
        Tree::Text(_) => Some(0x0cu8),
        Tree::List(_, _) => Some(0x20u8),
        Tree::Record(_) => Some(0x21u8),
        Tree::Variant(_, _) => Some(0x22u8),
        Tree::Foreign => None,
    }
}

/// Nothing in the tree is of a foreign kind.
pub open spec fn plain(t: Tree) -> bool
    decreases t,
{
    match t {
        Tree::Variant(_, fields) => forall|i: int|
            0 <= i < fields.len() ==> plain(#[trigger] fields[i]),
        Tree::Record(fields) => forall|i: int|
            0 <= i < fields.len() ==> plain(#[trigger] fields[i]),
        Tree::List(_, items) => forall|i: int|
            0 <= i < items.len() ==> plain(#[trigger] items[i]),
        Tree::Foreign => false,
        _ => true,
    }
}

/// No string or collection of the tree is past the size limit, and every
/// array holds only elements of the kind it declares.
pub open spec fn framed(t: Tree) -> bool
    decreases t,
{
    match t {
        Tree::Text(s) => encode_utf8(s).len() <= MAX_SBOR_SIZE,
        Tree::Variant(_, fields) => fields.len() <= MAX_SBOR_SIZE && forall|i: int|
            0 <= i < fields.len() ==> framed(#[trigger] fields[i]),
        Tree::Record(fields) => fields.len() <= MAX_SBOR_SIZE && forall|i: int|
            0 <= i < fields.len() ==> framed(#[trigger] fields[i]),
        Tree::List(kind, items) => items.len() <= MAX_SBOR_SIZE && forall|i: int|
            0 <= i < items.len() ==> framed(#[trigger] items[i]) && kind_of(items[i]) == Some(kind),
        _ => true,
    }
}

/// The tree nests at most `limit` levels, itself included.
pub open spec fn nests(t: Tree, limit: int) -> bool
    decreases t,
{
    limit >= 1 && match t {
        Tree::Variant(_, fields) => forall|i: int|
            0 <= i < fields.len() ==> nests(#[trigger] fields[i], limit - 1),
        Tree::Record(fields) => forall|i: int|
            0 <= i < fields.len() ==> nests(#[trigger] fields[i], limit - 1),
        Tree::List(_, items) => forall|i: int|
            0 <= i < items.len() ==> nests(#[trigger] items[i], limit - 1),
        _ => true,
    }
}

/// The tree nests within `limit` levels and is well framed.
pub open spec fn fits(t: Tree, limit: int) -> bool {
    nests(t, limit) && framed(t)
}

/// What nests within a limit nests within a wider one.
pub proof fn lemma_nests_wider(t: Tree, narrow: int, wide: int)
    requires
        nests(t, narrow),
        narrow <= wide,
    ensures
        nests(t, wide),
    decreases t,
{
    match t {
        Tree::Variant(_, parts) => {
            assert forall|i: int| 0 <= i < parts.len() implies nests(
                #[trigger] parts[i],
                wide - 1,
            ) by {
                lemma_nests_wider(parts[i], narrow - 1, wide - 1);
            }
        },
        Tree::Record(parts) => {
            assert forall|i: int| 0 <= i < parts.len() implies nests(
                #[trigger] parts[i],
                wide - 1,
            ) by {
                lemma_nests_wider(parts[i], narrow - 1, wide - 1);
            }
        },
        Tree::List(_, parts) => {
            assert forall|i: int| 0 <= i < parts.len() implies nests(
                #[trigger] parts[i],
                wide - 1,
            ) by {
                lemma_nests_wider(parts[i], narrow - 1, wide - 1);
            }
        },
        _ => {},
    }
}

/// A dynamic SBOR value.
#[verifier::external_body]
pub struct SborValue {
    inner: BasicValue,
}

/// What a dynamic SBOR value holds.
pub uninterp spec fn sbor_tree(v: SborValue) -> Tree;

/// The canonical basic-SBOR payload of a tree.
pub uninterp spec fn sbor_payload(t: Tree) -> Seq<u8>;

/// What the encoder says of a tree that it does not encode within a depth
/// limit; nothing, where it does.
pub uninterp spec fn sbor_encode_refusal(t: Tree, depth_limit: int) -> Option<Seq<char>>;

/// What the decoder says of bytes that it does not read as a value within a
/// depth limit; nothing, where it does.
pub uninterp spec fn sbor_refusal(bytes: Seq<u8>, depth_limit: int) -> Option<Seq<char>>;

/// What each value of a sequence holds.
pub open spec fn sbor_trees(vs: Seq<SborValue>) -> Seq<Tree> {
    vs.map_values(|v: SborValue| sbor_tree(v))
}

/// A value without parts.
pub enum Scalar {
    /// A byte.
    U8(u8),
    /// A 16-bit number.
    U16(u16),
    /// A 32-bit number.
    U32(u32),
    /// A 64-bit number.
    U64(u64),
    /// A 128-bit number.
    U128(u128),
    /// A string.
    Text(String),
}

/// The tree of a value without parts.
pub open spec fn scalar_tree(s: Scalar) -> Tree {
    match s {
        Scalar::U8(x) => Tree::U8(x),
        Scalar::U16(x) => Tree::U16(x),
        Scalar::U32(x) => Tree::U32(x),
        Scalar::U64(x) => Tree::U64(x),
        Scalar::U128(x) => Tree::U128(x),
        Scalar::Text(x) => Tree::Text(x@),
    }
}

/// A value with parts.
pub enum Branch {
    /// An enum variant.
    Variant(u8, Vec<SborValue>),
    /// An array.
    List(u8, Vec<SborValue>),
    /// A tuple or struct.
    Record(Vec<SborValue>),
}

/// The tree of a value with parts.
pub open spec fn branch_tree(b: Branch) -> Tree {
    match b {
        Branch::Variant(d, fields) => Tree::Variant(d, sbor_trees(fields@)),
        Branch::List(k, items) => Tree::List(k, sbor_trees(items@)),
        Branch::Record(fields) => Tree::Record(sbor_trees(fields@)),
    }
}

/// The tree has parts.
pub open spec fn is_branch(t: Tree) -> bool {
    t is Variant || t is List || t is Record
}

/// The tree is a value without parts.
pub open spec fn is_scalar(t: Tree) -> bool {
    !is_branch(t) && !(t is Foreign)
}

/// Builds an `sbor::Value` of a number or string kind. Claims that the value
/// holds the scalar it was given.
#[verifier::external_body]
pub(crate) fn scalar_value(s: Scalar) -> (v: SborValue)
    ensures
        sbor_tree(v) == scalar_tree(s),
{
    let inner = match s {
        Scalar::U8(value) => Sbor::U8 { value },
        Scalar::U16(value) => Sbor::U16 { value },
        Scalar::U32(value) => Sbor::U32 { value },
        Scalar::U64(value) => Sbor::U64 { value },
        Scalar::U128(value) => Sbor::U128 { value },
        Scalar::Text(value) => Sbor::String { value },
    };
    SborValue { inner }
}

/// Reads an `sbor::Value` of a number or string kind. Claims that what comes
/// back is what the value holds, and that nothing comes back exactly for a
/// value of another kind.
#[verifier::external_body]
pub(crate) fn scalar_of(v: SborValue) -> (r: Option<Scalar>)
    ensures
        match r {
            Some(s) => sbor_tree(v) == scalar_tree(s),
            None => !is_scalar(sbor_tree(v)),
        },
{
    match v.inner {
        Sbor::U8 { value } => Some(Scalar::U8(value)),
        Sbor::U16 { value } => Some(Scalar::U16(value)),
        Sbor::U32 { value } => Some(Scalar::U32(value)),
        Sbor::U64 { value } => Some(Scalar::U64(value)),
        Sbor::U128 { value } => Some(Scalar::U128(value)),
        Sbor::String { value } => Some(Scalar::Text(value)),
        _ => None,
    }
}

/// Builds an `sbor::Value` enum, array or tuple from its parts. Claims that
/// the value holds those parts under that discriminator or element kind.
#[verifier::external_body]
pub(crate) fn branch_value(b: Branch) -> (v: SborValue)
    requires
        b is List ==> b->List_0 == KIND_U8 || b->List_0 == KIND_TEXT || b->List_0 == KIND_LIST
            || b->List_0 == KIND_RECORD || b->List_0 == KIND_VARIANT,
    ensures
        sbor_tree(v) == branch_tree(b),
{
    let parts = |v: Vec<SborValue>| v.into_iter().map(|x| x.inner).collect();
    let inner = match b {
        Branch::Variant(discriminator, v) => Sbor::Enum { discriminator, fields: parts(v) },
        Branch::Record(v) => Sbor::Tuple { fields: parts(v) },
        Branch::List(k, v) => Sbor::Array {
            element_value_kind: BasicValueKind::from_u8(k).unwrap(),
            elements: parts(v),
        },
    };
    SborValue { inner }
}

/// Takes an `sbor::Value` enum, array or tuple apart. Claims that the parts
/// are those the value holds, and that nothing comes back exactly for a value
/// of another kind.
#[verifier::external_body]
pub(crate) fn branch_of(v: SborValue) -> (r: Option<Branch>)
    ensures
        match r {
            Some(b) => sbor_tree(v) == branch_tree(b),
            None => !is_branch(sbor_tree(v)),
        },
{
    let parts = |v: Vec<BasicValue>| v.into_iter().map(|inner| SborValue { inner }).collect();
    match v.inner {
        Sbor::Enum { discriminator, fields } => Some(Branch::Variant(discriminator, parts(fields))),
        Sbor::Tuple { fields } => Some(Branch::Record(parts(fields))),
        Sbor::Array { element_value_kind, elements } => {
            Some(Branch::List(element_value_kind.as_u8(), parts(elements)))
        },
        _ => None,
    }
}

/// Calls `sbor::basic_encode_with_depth_limit`. Claims that a value of known
/// kinds encodes exactly when it nests within the limit and is well framed,
/// and then to its canonical payload, and that the error, as its `Debug` text,
/// is a function of the value and the limit. Nothing is said of a value that
/// holds a kind outside [`Tree`].
#[verifier::external_body]
pub(crate) fn sbor_encode(v: SborValue, depth_limit: usize) -> (r: Result<Vec<u8>, String>)
    ensures
        match r {
            Ok(b) => plain(sbor_tree(v)) ==> fits(sbor_tree(v), depth_limit as int) && b@
                == sbor_payload(sbor_tree(v)),
            Err(text) => plain(sbor_tree(v)) ==> !fits(sbor_tree(v), depth_limit as int)
                && sbor_encode_refusal(sbor_tree(v), depth_limit as int) == Some(text@),
        },
{
    basic_encode_with_depth_limit(&v.inner, depth_limit).map_err(|error| format!("{error:?}"))
}

/// Calls `sbor::basic_decode_with_depth_limit` for a dynamic value. Claims
/// that the payload of every tree within the limits decodes to that tree, and
/// that what decodes to known kinds is within the limits and is the tree
/// whose payload was read: the format is canonical. Whether the bytes are
/// refused, and the error, as its `Debug` text, are functions of the bytes and
/// the limit.
#[verifier::external_body]
pub(crate) fn sbor_decode(bytes: &[u8], depth_limit: usize) -> (r: Result<SborValue, String>)
    ensures
        forall|t: Tree|
            plain(t) && fits(t, depth_limit as int) && #[trigger] sbor_payload(t) == bytes@
                ==> r is Ok && sbor_tree(r->Ok_0) == t,
        match r {
            Ok(v) => (plain(sbor_tree(v)) ==> fits(sbor_tree(v), depth_limit as int)
                && sbor_payload(sbor_tree(v)) == bytes@) && sbor_refusal(
                bytes@,
                depth_limit as int,
            ) is None,
            Err(text) => sbor_refusal(bytes@, depth_limit as int) == Some(text@),
        },
{
    match basic_decode_with_depth_limit(bytes, depth_limit) {
        Ok(inner) => Ok(SborValue { inner }),
        Err(error) => Err(format!("{error:?}")),
    }
}

} // verus!
