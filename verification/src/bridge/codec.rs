//! Canonical bytes of the types that have a wire form.
use vstd::prelude::*;

use crate::bridge::sbor_value::{
    branch_of, branch_tree, fits, framed, is_branch, kind_of, nests, plain, sbor_decode, sbor_encode,
    sbor_encode_refusal, sbor_payload, sbor_refusal, sbor_tree, sbor_trees, Branch, SborValue, Tree, KIND_U8,
};
use crate::bridge::wire::Wire;

verus! {

/// The discriminator of a literal byte vector.
pub const BYTES_VARIANT: u8 = 2;

/// The tree is a literal byte vector. An amount constraint on a resource has
/// the same shape; it stands too near the root for its depth to matter.
pub open spec fn is_bytes(t: Tree) -> bool {
    match t {
        Tree::Variant(d, fields) => d == BYTES_VARIANT && fields.len() == 1 && match fields[0] {
            Tree::List(kind, _) => kind == KIND_U8,
            _ => false,
        },
        _ => false,
    }
}

/// The tree nests at most `limit` levels, itself included. Writing counts a
/// string of bytes as one level. Reading counts the bytes of a fixed-size array
/// as a level of their own, but not those of a literal byte vector.
pub open spec fn within(t: Tree, limit: int, reading: bool) -> bool
    decreases t,
{
    limit >= 1 && if is_bytes(t) {
        limit >= 2
    } else {
        match t {
            Tree::Variant(_, fields) => forall|i: int|
                0 <= i < fields.len() ==> within(#[trigger] fields[i], limit - 1, reading),
            Tree::Record(fields) => forall|i: int|
                0 <= i < fields.len() ==> within(#[trigger] fields[i], limit - 1, reading),
            Tree::List(kind, items) => kind == KIND_U8 && !reading || forall|i: int|
                0 <= i < items.len() ==> within(#[trigger] items[i], limit - 1, reading),
            _ => true,
        }
    }
}

/// The tree is written within `limit` levels.
pub open spec fn settles(t: Tree, limit: int) -> bool {
    within(t, limit, false)
}

/// The tree is read within `limit` levels.
pub open spec fn reads(t: Tree, limit: int) -> bool {
    within(t, limit, true)
}

/// The tree has an encoding within `limit` levels.
pub open spec fn encodable(t: Tree, limit: int) -> bool {
    settles(t, limit) && framed(t)
}

/// The tree's encoding is read back within `limit` levels.
pub open spec fn decodable(t: Tree, limit: int) -> bool {
    reads(t, limit) && framed(t)
}

/// What is read within a limit is written within it.
pub proof fn lemma_reads_settles(t: Tree, limit: int)
    requires
        reads(t, limit),
    ensures
        settles(t, limit),
    decreases t,
{
    if !is_bytes(t) {
        match t {
            Tree::Variant(_, parts) => {
                assert forall|i: int| 0 <= i < parts.len() implies settles(
                    #[trigger] parts[i],
                    limit - 1,
                ) by {
                    lemma_reads_settles(parts[i], limit - 1);
                }
            },
            Tree::Record(parts) => {
                assert forall|i: int| 0 <= i < parts.len() implies settles(
                    #[trigger] parts[i],
                    limit - 1,
                ) by {
                    lemma_reads_settles(parts[i], limit - 1);
                }
            },
            Tree::List(_, parts) => {
                assert forall|i: int| 0 <= i < parts.len() implies settles(
                    #[trigger] parts[i],
                    limit - 1,
                ) by {
                    lemma_reads_settles(parts[i], limit - 1);
                }
            },
            _ => {},
        }
    }
}

/// Counting the bytes of every string as a level of their own takes at most
/// one level more.
pub proof fn lemma_settles_nests(t: Tree, limit: int)
    requires
        settles(t, limit),
        framed(t),
    ensures
        nests(t, limit + 1),
    decreases t,
{
    match t {
        Tree::Variant(_, parts) => {
            assert forall|i: int| 0 <= i < parts.len() implies nests(
                #[trigger] parts[i],
                limit,
            ) by {
                assert(within(parts[i], limit - 1, false));
                lemma_settles_nests(parts[i], limit - 1);
            }
        },
        Tree::Record(parts) => {
            assert forall|i: int| 0 <= i < parts.len() implies nests(
                #[trigger] parts[i],
                limit,
            ) by {
                lemma_settles_nests(parts[i], limit - 1);
            }
        },
        Tree::List(kind, parts) => {
            assert forall|i: int| 0 <= i < parts.len() implies nests(
                #[trigger] parts[i],
                limit,
            ) by {
                assert(framed(parts[i]) && kind_of(parts[i]) == Some(kind));
                if kind != KIND_U8 {
                    lemma_settles_nests(parts[i], limit - 1);
                }
            }
        },
        _ => {},
    }
}

/// What nests within a limit is read within it.
pub proof fn lemma_nests_reads(t: Tree, limit: int)
    requires
        nests(t, limit),
    ensures
        reads(t, limit),
    decreases t,
{
    match t {
        Tree::Variant(_, parts) => {
            assert forall|i: int| 0 <= i < parts.len() implies reads(
                #[trigger] parts[i],
                limit - 1,
            ) by {
                lemma_nests_reads(parts[i], limit - 1);
            }
            if is_bytes(t) {
                assert(nests(parts[0], limit - 1));
            }
        },
        Tree::Record(parts) => {
            assert forall|i: int| 0 <= i < parts.len() implies reads(
                #[trigger] parts[i],
                limit - 1,
            ) by {
                lemma_nests_reads(parts[i], limit - 1);
            }
        },
        Tree::List(_, parts) => {
            assert forall|i: int| 0 <= i < parts.len() implies reads(
                #[trigger] parts[i],
                limit - 1,
            ) by {
                lemma_nests_reads(parts[i], limit - 1);
            }
        },
        _ => {},
    }
}

/// A tree is within a limit exactly when its parts are one level down.
proof fn lemma_within_parts(t: Tree, parts: Seq<Tree>, limit: int, reading: bool)
    requires
        match t {
            Tree::Variant(_, fields) => fields == parts,
            Tree::Record(fields) => fields == parts,
            Tree::List(kind, items) => items == parts && (kind != KIND_U8 || reading),
            _ => false,
        },
        !is_bytes(t),
        limit >= 1,
    ensures
        within(t, limit, reading) == forall|i: int|
            0 <= i < parts.len() ==> within(#[trigger] parts[i], limit - 1, reading),
{
    if within(t, limit, reading) {
        assert forall|i: int| 0 <= i < parts.len() implies within(
            #[trigger] parts[i],
            limit - 1,
            reading,
        ) by {
            match t {
                Tree::Variant(_, fields) => assert(within(fields[i], limit - 1, reading)),
                Tree::Record(fields) => assert(within(fields[i], limit - 1, reading)),
                Tree::List(_, items) => assert(within(items[i], limit - 1, reading)),
                _ => {},
            }
        }
    }
}

/// Whether each of the values is within `limit`.
fn all_within(
    parts: Vec<SborValue>,
    limit: usize,
    reading: bool,
    Ghost(whole): Ghost<Tree>,
) -> (ok: bool)
    requires
        forall|i: int|
            0 <= i < parts@.len() ==> decreases_to!(whole => sbor_tree(#[trigger] parts@[i])),
    ensures
        ok == forall|i: int|
            0 <= i < parts@.len() ==> within(
                #[trigger] sbor_trees(parts@)[i],
                limit as int,
                reading,
            ),
    decreases whole, 0nat,
{
    let mut rest = parts;
    while rest.len() > 0
        invariant
            rest@ == parts@.take(rest@.len() as int),
            rest@.len() <= parts@.len(),
            forall|i: int|
                0 <= i < parts@.len() ==> decreases_to!(whole => sbor_tree(#[trigger] parts@[i])),
            forall|i: int|
                rest@.len() <= i < parts@.len() ==> within(
                    #[trigger] sbor_trees(parts@)[i],
                    limit as int,
                    reading,
                ),
        decreases rest@.len(),
    {
        let ghost n = rest@.len() - 1;
        let v = match rest.pop() {
            Some(v) => v,
            None => {
                return true;
            },
        };
        assert(v == parts@[n]);
        assert(sbor_trees(parts@)[n] == sbor_tree(v));
        assert(decreases_to!(whole => sbor_tree(parts@[n])));
        if !is_within(v, limit, reading) {
            return false;
        }
    }
    true
}

/// Whether a value is within `limit`.
fn is_within(v: SborValue, limit: usize, reading: bool) -> (ok: bool)
    ensures
        ok == within(sbor_tree(v), limit as int, reading),
    decreases sbor_tree(v), 2nat,
{
    match branch_of(v) {
        Some(b) => is_branch_within(b, limit, reading),
        None => {
            assert(!is_branch(sbor_tree(v)));
            limit >= 1
        },
    }
}

/// Whether a value with parts is within `limit`.
fn is_branch_within(b: Branch, limit: usize, reading: bool) -> (ok: bool)
    ensures
        ok == within(branch_tree(b), limit as int, reading),
    decreases branch_tree(b), 1nat,
{
    if limit == 0 {
        return false;
    }
    let ghost t = branch_tree(b);
    match b {
        Branch::Variant(d, parts) => {
            let ghost fields = sbor_trees(parts@);
            proof {
                lemma_part_decreases(t, parts@);
            }
            if d == BYTES_VARIANT && parts.len() == 1 {
                let ghost all = parts@;
                let mut rest = parts;
                if let Some(part) = rest.pop() {
                    assert(part == all[0]);
                    assert(fields[0] == sbor_tree(part));
                    assert(decreases_to!(t => sbor_tree(all[0])));
                    assert(fields =~= seq![sbor_tree(part)]);
                    return match branch_of(part) {
                        Some(Branch::List(kind, items)) => {
                            let inner = Branch::List(kind, items);
                            assert(branch_tree(inner) == sbor_tree(part));
                            if kind == KIND_U8 {
                                assert(is_bytes(t));
                                limit >= 2
                            } else {
                                assert(!is_bytes(t));
                                let ok = is_branch_within(inner, limit - 1, reading);
                                proof {
                                    lemma_within_parts(t, fields, limit as int, reading);
                                }
                                ok
                            }
                        },
                        Some(inner) => {
                            assert(branch_tree(inner) == sbor_tree(part));
                            assert(!is_bytes(t));
                            let ok = is_branch_within(inner, limit - 1, reading);
                            proof {
                                lemma_within_parts(t, fields, limit as int, reading);
                            }
                            ok
                        },
                        None => {
                            assert(!is_bytes(t));
                            proof {
                                lemma_within_parts(t, fields, limit as int, reading);
                            }
                            limit >= 2
                        },
                    };
                }
                return false;
            }
            assert(!is_bytes(t));
            let ok = all_within(parts, limit - 1, reading, Ghost(t));
            proof {
                lemma_within_parts(t, fields, limit as int, reading);
            }
            ok
        },
        Branch::Record(parts) => {
            let ghost fields = sbor_trees(parts@);
            proof {
                lemma_part_decreases(t, parts@);
            }
            let ok = all_within(parts, limit - 1, reading, Ghost(t));
            proof {
                lemma_within_parts(t, fields, limit as int, reading);
            }
            ok
        },
        Branch::List(kind, parts) => {
            let ghost items = sbor_trees(parts@);
            if kind == KIND_U8 && !reading {
                true
            } else {
                proof {
                    lemma_part_decreases(t, parts@);
                }
                let ok = all_within(parts, limit - 1, reading, Ghost(t));
                proof {
                    lemma_within_parts(t, items, limit as int, reading);
                }
                ok
            }
        },
    }
}

/// A tree decreases to each of its parts.
proof fn lemma_part_decreases(t: Tree, parts: Seq<SborValue>)
    requires
        match t {
            Tree::Variant(_, fields) => fields == sbor_trees(parts),
            Tree::Record(fields) => fields == sbor_trees(parts),
            Tree::List(_, items) => items == sbor_trees(parts),
            _ => false,
        },
    ensures
        forall|i: int| 0 <= i < parts.len() ==> decreases_to!(t => sbor_tree(#[trigger] parts[i])),
{
    assert forall|i: int| 0 <= i < parts.len() implies decreases_to!(
        t => sbor_tree(#[trigger] parts[i])
    ) by {
        assert(sbor_trees(parts)[i] == sbor_tree(parts[i]));
        match t {
            Tree::Variant(_, fields) => {
                assert(decreases_to!(t => fields));
                assert(decreases_to!(fields => fields[i]));
            },
            Tree::Record(fields) => {
                assert(decreases_to!(t => fields));
                assert(decreases_to!(fields => fields[i]));
            },
            Tree::List(_, items) => {
                assert(decreases_to!(t => items));
                assert(decreases_to!(items => items[i]));
            },
            _ => {},
        }
    }
}

/// The canonical bytes of a value; nothing, exactly when it has none within
/// `limit` levels.
pub fn encode<T: Wire>(x: &T, limit: usize) -> (r: Option<Vec<u8>>)
    requires
        limit < usize::MAX,
    ensures
        match r {
            Some(b) => encodable(x.tree(), limit as int) && b@ == sbor_payload(x.tree()),
            None => !encodable(x.tree(), limit as int),
        },
{
    proof {
        T::law_plain(*x);
        if encodable(x.tree(), limit as int) {
            lemma_settles_nests(x.tree(), limit as int);
        }
    }
    if !is_within(x.to_wire(), limit, false) {
        return None;
    }
    match sbor_encode(x.to_wire(), limit + 1) {
        Ok(bytes) => Some(bytes),
        Err(_) => None,
    }
}

/// Why a value that is written within `limit` levels has no canonical bytes.
pub fn encode_fault<T: Wire>(x: &T, limit: usize) -> (reason: String)
    requires
        limit < usize::MAX,
        settles(x.tree(), limit as int),
        !encodable(x.tree(), limit as int),
    ensures
        sbor_encode_refusal(x.tree(), limit + 1) == Some(reason@),
{
    proof {
        T::law_plain(*x);
    }
    match sbor_encode(x.to_wire(), limit + 1) {
        Ok(_) => String::new(),
        Err(reason) => reason,
    }
}

/// What is said of bytes that are not read within `limit` levels: what the
/// decoder says of them, or that they hold a value of another form.
pub open spec fn unread(bytes: Seq<u8>, limit: int) -> Seq<char> {
    match sbor_refusal(bytes, limit) {
        Some(text) => text,
        None => "a value of another form"@,
    }
}

/// What is said of bytes that are not read within `limit` levels.
pub fn decode_fault(bytes: &[u8], limit: usize) -> (reason: String)
    ensures
        reason@ == unread(bytes@, limit as int),
{
    match sbor_decode(bytes, limit) {
        Ok(_) => "a value of another form".to_string(),
        Err(reason) => reason,
    }
}

/// The value whose canonical bytes these are; nothing, exactly when there is
/// none within `limit` levels.
pub fn decode<T: Wire>(bytes: &[u8], limit: usize) -> (r: Option<T>)
    requires
        limit < usize::MAX,
    ensures
        match r {
            Some(x) => decodable(x.tree(), limit as int) && bytes@ == sbor_payload(x.tree()),
            None => forall|x: T|
                !(decodable(#[trigger] x.tree(), limit as int) && bytes@ == sbor_payload(
                    x.tree(),
                )),
        },
        forall|x: T|
            decodable(#[trigger] x.tree(), limit as int) && bytes@ == sbor_payload(x.tree())
                ==> r is Some && r->0.tree() == x.tree(),
{
    proof {
        assert forall|x: T|
            decodable(#[trigger] x.tree(), limit as int) && bytes@ == sbor_payload(
                x.tree(),
            ) implies plain(x.tree()) && fits(x.tree(), limit + 1) by {
            T::law_plain(x);
            lemma_reads_settles(x.tree(), limit as int);
            lemma_settles_nests(x.tree(), limit as int);
        }
    }
    let first = match sbor_decode(bytes, limit + 1) {
        Ok(first) => first,
        Err(_) => {
            return None;
        },
    };
    let ghost t = sbor_tree(first);
    if !is_within(first, limit, true) {
        return None;
    }
    let again = match sbor_decode(bytes, limit + 1) {
        Ok(again) => again,
        Err(_) => {
            return None;
        },
    };
    let ghost u = sbor_tree(again);
    match T::from_wire(again) {
        Some(x) => {
            proof {
                T::law_plain(x);
                assert(sbor_payload(u) == bytes@);
                assert(fits(u, limit + 1));
                assert(t == u);
            }
            Some(x)
        },
        None => None,
    }
}

/// Of bytes that are not read it is said what the decoder says of them; where the
/// decoder takes them, that they hold a value of another form.
pub proof fn law_what_is_said_of_unread_bytes(bytes: Seq<u8>, limit: int)
    ensures
        sbor_refusal(bytes, limit) is Some ==> Some(unread(bytes, limit)) == sbor_refusal(
            bytes,
            limit,
        ),
        sbor_refusal(bytes, limit) is None ==> unread(bytes, limit) == "a value of another form"@,
{
}

} // verus!
