//! The metadata section: how a component artifact carries its own effect
//! signatures.
use vstd::prelude::*;
use vstd::utf8::{encode_utf8, is_ascii_chars_encode_utf8};

use crate::bridge::checks::MetadataLimits;
use crate::bridge::depth::law_bounded_metadata_settles;
use crate::bridge::error::{FramingFault, VmStaticsError};
use crate::bridge::metadata::{
    decode_metadata, encode_metadata, section_of, section_refused_as, PackageMetadata,
};
use crate::bridge::sbor_value::{sbor_encode_refusal, sbor_payload};
use crate::bridge::codec::encodable;
use crate::bridge::wire::Wire;
use crate::order::same_bytes;

verus! {

/// The section id of custom sections.
pub const CUSTOM_SECTION_ID: u8 = 0;

/// How long the preamble is that every module and component opens with.
pub const PREAMBLE_LEN: usize = 8;

/// The name of the section that holds effect metadata.
pub const METADATA_SECTION: &'static str = "hyperscale:effect-metadata";

/// The bytes of [`METADATA_SECTION`].
pub open spec fn section_name() -> Seq<u8> {
    encode_utf8(METADATA_SECTION@)
}

/// The section name's bytes, as they are spelled.
pub proof fn law_section_name_is_spelled()
    ensures
        section_name() == seq![
            104u8, 121u8, 112u8, 101u8, 114u8, 115u8, 99u8, 97u8, 108u8, 101u8, 58u8, 101u8,
            102u8, 102u8, 101u8, 99u8, 116u8, 45u8, 109u8, 101u8, 116u8, 97u8, 100u8, 97u8, 116u8,
            97u8,
        ],
{
    reveal_strlit("hyperscale:effect-metadata");
    is_ascii_chars_encode_utf8(METADATA_SECTION@);
    assert(section_name() =~= seq![
        104u8, 121u8, 112u8, 101u8, 114u8, 115u8, 99u8, 97u8, 108u8, 101u8, 58u8, 101u8, 102u8,
        102u8, 101u8, 99u8, 116u8, 45u8, 109u8, 101u8, 116u8, 97u8, 100u8, 97u8, 116u8, 97u8,
    ]);
}

/// The section name has 26 bytes.
proof fn lemma_section_name_len()
    ensures
        section_name().len() == 26,
{
    law_section_name_is_spelled();
}

fn section_name_bytes() -> (name: &'static [u8])
    ensures
        name@ == section_name(),
        name@.len() == 26,
{
    proof {
        lemma_section_name_len();
    }
    METADATA_SECTION.as_bytes()
}

/// A length as base-128 digits, lowest first, every digit but the last marked
/// by its high bit.
pub open spec fn uleb(n: nat) -> Seq<u8>
    decreases n,
{
    if n < 128 {
        seq![n as u8]
    } else {
        seq![(n % 128 + 128) as u8] + uleb(n / 128)
    }
}

/// Appends a length in base-128 digits.
pub fn write_uleb128(value: usize, out: &mut Vec<u8>)
    ensures
        final(out)@ == old(out)@ + uleb(value as nat),
{
    let mut rest: usize = value;
    while rest >= 128
        invariant
            out@ + uleb(rest as nat) == old(out)@ + uleb(value as nat),
        decreases rest,
    {
        let ghost before = out@;
        let digit: u8 = (rest % 128) as u8 + 128;
        out.push(digit);
        proof {
            assert(before + uleb(rest as nat) =~= before.push(digit) + uleb((rest / 128) as nat));
        }
        rest = rest / 128;
    }
    let ghost before = out@;
    out.push(rest as u8);
    assert(out@ =~= before + uleb(rest as nat));
}

/// What base-128 digits at `pos` spell and where they end, when `seen` digits
/// came before them. At most five digits make up a length.
pub open spec fn digits_at(bytes: Seq<u8>, pos: int, seen: nat) -> Result<(nat, int), FramingFault>
    decreases 5 - seen,
{
    if pos < 0 || pos >= bytes.len() {
        Err(FramingFault::LengthTruncated)
    } else if bytes[pos] < 128 {
        Ok((bytes[pos] as nat, pos + 1))
    } else if seen >= 4 {
        Err(FramingFault::LengthRange)
    } else {
        match digits_at(bytes, pos + 1, seen + 1) {
            Ok((rest, end)) => Ok(((bytes[pos] - 128) as nat + 128 * rest, end)),
            Err(e) => Err(e),
        }
    }
}

/// The length at `pos` and where it ends. A length is a 32-bit value.
pub open spec fn length_at(bytes: Seq<u8>, pos: int) -> Result<(nat, int), FramingFault> {
    match digits_at(bytes, pos, 0) {
        Ok((n, end)) => if n <= u32::MAX {
            Ok((n, end))
        } else {
            Err(FramingFault::LengthRange)
        },
        Err(e) => Err(e),
    }
}

/// Digits end behind where they start, within the bytes.
pub proof fn lemma_digits_end(bytes: Seq<u8>, pos: int, seen: nat)
    ensures
        digits_at(bytes, pos, seen) is Ok ==> pos < (digits_at(bytes, pos, seen)->Ok_0).1
            <= bytes.len(),
    decreases 5 - seen,
{
    if 0 <= pos < bytes.len() && bytes[pos] >= 128 && seen < 4 {
        lemma_digits_end(bytes, pos + 1, seen + 1);
    }
}

fn read_digits(bytes: &[u8], pos: usize, seen: u8) -> (r: Result<(u64, usize), FramingFault>)
    requires
        seen <= 4,
    ensures
        match digits_at(bytes@, pos as int, seen as nat) {
            Ok((n, end)) => r is Ok && (r->Ok_0).0 == n && (r->Ok_0).1 == end,
            Err(e) => r == Err::<(u64, usize), FramingFault>(e),
        },
        r is Ok ==> (r->Ok_0).0 < 0x8_0000_0000 && (seen == 1 ==> (r->Ok_0).0 < 0x1000_0000) && (seen
            == 2 ==> (r->Ok_0).0 < 0x20_0000) && (seen == 3 ==> (r->Ok_0).0 < 0x4000) && (seen == 4
            ==> (r->Ok_0).0 < 0x80),
    decreases 4 - seen,
{
    if pos >= bytes.len() {
        return Err(FramingFault::LengthTruncated);
    }
    let digit: u8 = bytes[pos];
    if digit < 128 {
        return Ok((digit as u64, pos + 1));
    }
    if seen >= 4 {
        return Err(FramingFault::LengthRange);
    }
    match read_digits(bytes, pos + 1, seen + 1) {
        Ok((rest, end)) => Ok(((digit - 128) as u64 + 128 * rest, end)),
        Err(e) => Err(e),
    }
}

/// Reads the length at `pos`, and where it ends.
pub fn read_uleb128(bytes: &[u8], pos: usize) -> (r: Result<(usize, usize), FramingFault>)
    ensures
        match length_at(bytes@, pos as int) {
            Ok((n, end)) => r is Ok && (r->Ok_0).0 == n && (r->Ok_0).1 == end && pos < end
                <= bytes@.len(),
            Err(e) => r == Err::<(usize, usize), FramingFault>(e),
        },
{
    proof {
        lemma_digits_end(bytes@, pos as int, 0);
    }
    match read_digits(bytes, pos, 0) {
        Ok((n, end)) => {
            if n > u32::MAX as u64 {
                Err(FramingFault::LengthRange)
            } else {
                Ok((n as usize, end))
            }
        },
        Err(e) => Err(e),
    }
}

/// A section's id, where its content starts and where it ends.
pub open spec fn section_at(bytes: Seq<u8>, pos: int) -> Result<(u8, int, int), FramingFault> {
    match length_at(bytes, pos + 1) {
        Ok((size, start)) => if start + size > bytes.len() {
            Err(FramingFault::SectionOverrun)
        } else {
            Ok((bytes[pos], start, start + size))
        },
        Err(e) => Err(e),
    }
}

/// Where the content of a custom section starts behind its name, and the name.
pub open spec fn custom_name(bytes: Seq<u8>, start: int, end: int) -> Result<
    (Seq<u8>, int),
    FramingFault,
> {
    match length_at(bytes.take(end), start) {
        Ok((len, inner)) => if inner + len > end {
            Err(FramingFault::NameOverrun)
        } else {
            Ok((bytes.subrange(inner, inner + len), inner + len))
        },
        Err(e) => Err(e),
    }
}

/// A section is the metadata section, and where its payload starts.
pub open spec fn payload_at(bytes: Seq<u8>, id: u8, start: int, end: int) -> Result<
    Option<int>,
    FramingFault,
> {
    if id == CUSTOM_SECTION_ID {
        match custom_name(bytes, start, end) {
            Ok((name, inner)) => if name == section_name() {
                Ok(Some(inner))
            } else {
                Ok(None)
            },
            Err(e) => Err(e),
        }
    } else {
        Ok(None)
    }
}

/// Sections end behind where they start.
pub proof fn lemma_section_end(bytes: Seq<u8>, pos: int)
    ensures
        section_at(bytes, pos) is Ok ==> pos + 1 < (section_at(bytes, pos)->Ok_0).1
            <= (section_at(bytes, pos)->Ok_0).2 <= bytes.len(),
{
    lemma_digits_end(bytes, pos + 1, 0);
}

/// The span of the metadata section's payload, walking the sections from `pos`
/// on, where `found` was met before.
pub open spec fn walk(bytes: Seq<u8>, pos: int, found: Option<(int, int)>) -> Result<
    Option<(int, int)>,
    FramingFault,
>
    decreases bytes.len() - pos,
{
    if pos >= bytes.len() {
        Ok(found)
    } else {
        match section_at(bytes, pos) {
            Err(e) => Err(e),
            Ok((id, start, end)) => match payload_at(bytes, id, start, end) {
                Err(e) => Err(e),
                Ok(None) => {
                    proof {
                        lemma_section_end(bytes, pos);
                    }
                    walk(bytes, end, found)
                },
                Ok(Some(inner)) => if found is Some {
                    Err(FramingFault::Duplicate)
                } else {
                    proof {
                        lemma_section_end(bytes, pos);
                    }
                    walk(bytes, end, Some((inner, end)))
                },
            },
        }
    }
}

/// The artifact opens with the preamble.
pub open spec fn opens(bytes: Seq<u8>) -> bool {
    bytes.len() >= PREAMBLE_LEN && bytes[0] == 0 && bytes[1] == 97 && bytes[2] == 115 && bytes[3]
        == 109
}

/// The span of the payload of an artifact's metadata section.
pub open spec fn declared(bytes: Seq<u8>) -> Result<Option<(int, int)>, FramingFault> {
    if !opens(bytes) {
        Err(FramingFault::Preamble)
    } else {
        walk(bytes, PREAMBLE_LEN as int, None)
    }
}

fn read_custom_name(artifact: &[u8], start: usize, end: usize) -> (r: Result<
    Option<usize>,
    FramingFault,
>)
    requires
        start <= end <= artifact@.len(),
    ensures
        r is Ok ==> (r->Ok_0 is Some ==> r->Ok_0->0 <= end),
        match payload_at(artifact@, CUSTOM_SECTION_ID, start as int, end as int) {
            Ok(Some(inner)) => r is Ok && r->Ok_0 is Some && r->Ok_0->0 == inner,
            Ok(None) => r is Ok && r->Ok_0 is None,
            Err(e) => r == Err::<Option<usize>, FramingFault>(e),
        },
{
    let section = vstd::slice::slice_subrange(artifact, 0, end);
    assert(section@ =~= artifact@.take(end as int));
    match read_uleb128(section, start) {
        Err(e) => Err(e),
        Ok((len, inner)) => {
            if len > end - inner {
                return Err(FramingFault::NameOverrun);
            }
            let name = vstd::slice::slice_subrange(artifact, inner, inner + len);
            let want = section_name_bytes();
            if same_bytes(name, want) {
                Ok(Some(inner + len))
            } else {
                Ok(None)
            }
        },
    }
}

/// The span of the payload of an artifact's metadata section, walking the
/// sections.
pub fn find_section(artifact: &[u8]) -> (r: Result<Option<(usize, usize)>, FramingFault>)
    ensures
        match declared(artifact@) {
            Ok(Some((start, end))) => r is Ok && r->Ok_0 is Some && (r->Ok_0->0).0 == start
                && (r->Ok_0->0).1 == end && start <= end <= artifact@.len(),
            Ok(None) => r is Ok && r->Ok_0 is None,
            Err(e) => r == Err::<Option<(usize, usize)>, FramingFault>(e),
        },
{
    if artifact.len() < PREAMBLE_LEN || artifact[0] != 0 || artifact[1] != 97 || artifact[2] != 115
        || artifact[3] != 109 {
        return Err(FramingFault::Preamble);
    }
    let mut found: Option<(usize, usize)> = None;
    let mut pos: usize = PREAMBLE_LEN;
    while pos < artifact.len()
        invariant
            opens(artifact@),
            pos <= artifact@.len(),
            found is Some ==> (found->0).0 <= (found->0).1 <= artifact@.len(),
            declared(artifact@) == walk(
                artifact@,
                pos as int,
                match found {
                    Some((a, b)) => Some((a as int, b as int)),
                    None => None,
                },
            ),
        decreases artifact@.len() - pos,
    {
        let id: u8 = artifact[pos];
        proof {
            lemma_section_end(artifact@, pos as int);
        }
        let (size, start): (usize, usize) = match read_uleb128(artifact, pos + 1) {
            Ok(x) => x,
            Err(e) => {
                return Err(e);
            },
        };
        if size > artifact.len() - start {
            return Err(FramingFault::SectionOverrun);
        }
        let end: usize = start + size;
        if id == CUSTOM_SECTION_ID {
            match read_custom_name(artifact, start, end) {
                Err(e) => {
                    return Err(e);
                },
                Ok(None) => {},
                Ok(Some(inner)) => {
                    if found.is_some() {
                        return Err(FramingFault::Duplicate);
                    }
                    found = Some((inner, end));
                },
            }
        }
        pos = end;
    }
    Ok(found)
}

/// The metadata section that carries a payload.
pub open spec fn section(payload: Seq<u8>) -> Seq<u8> {
    let content = uleb(section_name().len()) + section_name() + payload;
    seq![CUSTOM_SECTION_ID] + uleb(content.len()) + content
}

/// Why metadata cannot be attached: the artifact is not framed, it declares
/// metadata already, or the metadata is out of bounds, past the encoding's
/// depth or too long.
pub open spec fn attach_refused_as(
    artifact: Seq<u8>,
    metadata: PackageMetadata,
    lim: MetadataLimits,
    e: VmStaticsError,
) -> bool {
    match declared(artifact) {
        Err(f) => e == VmStaticsError::Framing(f),
        Ok(Some(_)) => e is AlreadyDeclared,
        Ok(None) => if !metadata.bounded(lim) {
            metadata.refused_as(lim, e)
        } else if !encodable(metadata.tree(), lim.sbor_depth()) {
            e is MetadataEncode && sbor_encode_refusal(metadata.tree(), lim.sbor_depth() + 1)
                == Some(e->MetadataEncode_reason@)
        } else {
            e is MetadataOversized && e->MetadataOversized_bytes == sbor_payload(
                metadata.tree(),
            ).len() && e->MetadataOversized_bytes > lim.max_bytes
        },
    }
}

/// The artifact with metadata attached: it had no section, and the section of
/// that metadata is appended to it.
pub open spec fn attaches(
    out: Seq<u8>,
    artifact: Seq<u8>,
    metadata: PackageMetadata,
    lim: MetadataLimits,
) -> bool {
    &&& declared(artifact) == Ok::<Option<(int, int)>, FramingFault>(None)
    &&& section_of(sbor_payload(metadata.tree()), metadata, lim)
    &&& out == artifact + section(sbor_payload(metadata.tree()))
}

/// Attaches metadata to a component artifact as its metadata section. The
/// artifact's own bytes stay as they are.
pub fn attach_metadata(
    artifact: &[u8],
    metadata: &PackageMetadata,
    lim: &MetadataLimits,
) -> (r: Result<Vec<u8>, VmStaticsError>)
    requires
        lim.wf(),
        metadata.wf(),
    ensures
        match r {
            Ok(out) => attaches(out@, artifact@, *metadata, *lim),
            Err(e) => attach_refused_as(artifact@, *metadata, *lim, e),
        },
{
    match find_section(artifact) {
        Err(f) => {
            return Err(VmStaticsError::Framing(f));
        },
        Ok(Some(_)) => {
            return Err(VmStaticsError::AlreadyDeclared);
        },
        Ok(None) => {},
    }
    let payload = match encode_metadata(metadata, lim) {
        Ok(payload) => payload,
        Err(e) => {
            return Err(e);
        },
    };
    let name = section_name_bytes();
    let mut content: Vec<u8> = Vec::new();
    write_uleb128(26, &mut content);
    content.extend_from_slice(name);
    content.extend_from_slice(payload.as_slice());
    assert(content@ =~= uleb(section_name().len()) + section_name() + payload@);
    let mut out: Vec<u8> = Vec::new();
    out.extend_from_slice(artifact);
    out.push(CUSTOM_SECTION_ID);
    write_uleb128(content.len(), &mut out);
    out.extend_from_slice(content.as_slice());
    assert(out@ =~= artifact@ + section(payload@));
    proof {
        law_bounded_metadata_settles(*metadata, *lim);
    }
    Ok(out)
}

/// The bytes of a span.
pub open spec fn span(bytes: Seq<u8>, at: (int, int)) -> Seq<u8> {
    bytes.subrange(at.0, at.1)
}

/// What reading an artifact's metadata comes to: a framing fault, nothing where
/// there is no section, or what its section reads as.
pub open spec fn extracts(
    r: Result<Option<PackageMetadata>, VmStaticsError>,
    artifact: Seq<u8>,
    lim: MetadataLimits,
) -> bool {
    match declared(artifact) {
        Err(f) => r is Err && r->Err_0 == VmStaticsError::Framing(f),
        Ok(None) => r is Ok && r->Ok_0 is None,
        Ok(Some(at)) => {
            &&& match r {
                Ok(Some(m)) => section_of(span(artifact, at), m, lim),
                Ok(None) => false,
                Err(e) => section_refused_as(span(artifact, at), lim, e),
            }
            &&& forall|x: PackageMetadata|
                #[trigger] section_of(span(artifact, at), x, lim) ==> r is Ok && r->Ok_0 is Some
                    && r->Ok_0->0.tree() == x.tree()
        },
    }
}

/// The effect metadata that an artifact declares, if it declares any.
pub fn extract_metadata(artifact: &[u8], lim: &MetadataLimits) -> (r: Result<
    Option<PackageMetadata>,
    VmStaticsError,
>)
    requires
        lim.wf(),
    ensures
        extracts(r, artifact@, *lim),
{
    match find_section(artifact) {
        Err(f) => Err(VmStaticsError::Framing(f)),
        Ok(None) => Ok(None),
        Ok(Some((start, end))) => {
            let payload = vstd::slice::slice_subrange(artifact, start, end);
            assert(payload@ == span(artifact@, (start as int, end as int)));
            match decode_metadata(payload, lim) {
                Ok(metadata) => Ok(Some(metadata)),
                Err(e) => Err(e),
            }
        },
    }
}

/// A length that ends within a prefix is the same in the whole.
proof fn lemma_digits_extend(a: Seq<u8>, x: Seq<u8>, pos: int, seen: nat)
    requires
        digits_at(a, pos, seen) is Ok,
    ensures
        digits_at(a + x, pos, seen) == digits_at(a, pos, seen),
    decreases 5 - seen,
{
    if bytes_continue(a, pos) && seen < 4 {
        lemma_digits_extend(a, x, pos + 1, seen + 1);
    }
}

spec fn bytes_continue(a: Seq<u8>, pos: int) -> bool {
    0 <= pos < a.len() && a[pos] >= 128
}

/// What the walk finds in an artifact, it finds before it goes on into what
/// was appended.
proof fn lemma_walk_extends(a: Seq<u8>, x: Seq<u8>, pos: int, found: Option<(int, int)>)
    requires
        walk(a, pos, found) is Ok,
        0 <= pos <= a.len(),
    ensures
        walk(a + x, pos, found) == walk(a + x, a.len() as int, walk(a, pos, found)->Ok_0),
    decreases a.len() - pos,
{
    if pos < a.len() {
        lemma_section_end(a, pos);
        lemma_digits_extend(a, x, pos + 1, 0);
        let (id, start, end) = section_at(a, pos)->Ok_0;
        assert(section_at(a + x, pos) == section_at(a, pos));
        assert((a + x).take(end) =~= a.take(end));
        assert(payload_at(a + x, id, start, end) == payload_at(a, id, start, end)) by {
            match custom_name(a, start, end) {
                Ok((name, inner)) => {
                    lemma_digits_end(a.take(end), start, 0);
                    let len = (length_at(a.take(end), start)->Ok_0).0;
                    let from = (length_at(a.take(end), start)->Ok_0).1;
                    assert((a + x).subrange(from, from + len) =~= a.subrange(from, from + len));
                },
                Err(_) => {},
            }
        }
        match payload_at(a, id, start, end)->Ok_0 {
            None => lemma_walk_extends(a, x, end, found),
            Some(inner) => lemma_walk_extends(a, x, end, Some((inner, end))),
        }
    }
}

/// Digits read back what was written, wherever they stand.
proof fn lemma_digits_read_back(pre: Seq<u8>, n: nat, post: Seq<u8>, seen: nat)
    requires
        seen == 0 ==> n < 0x8_0000_0000,
        seen == 1 ==> n < 0x1000_0000,
        seen == 2 ==> n < 0x20_0000,
        seen == 3 ==> n < 0x4000,
        seen == 4 ==> n < 0x80,
        seen <= 4,
    ensures
        digits_at(pre + uleb(n) + post, pre.len() as int, seen) == Ok::<(nat, int), FramingFault>(
            (n, (pre.len() + uleb(n).len()) as int),
        ),
    decreases 5 - seen,
{
    let all = pre + uleb(n) + post;
    if n < 128 {
        assert(uleb(n).len() == 1);
        assert(all[pre.len() as int] == n as u8);
    } else {
        let digit = (n % 128 + 128) as u8;
        assert(uleb(n) == seq![digit] + uleb(n / 128));
        assert(all[pre.len() as int] == digit);
        lemma_digits_read_back(pre.push(digit), n / 128, post, seen + 1);
        assert(all =~= pre.push(digit) + uleb(n / 128) + post);
        assert((digit - 128) as nat + 128 * (n / 128) == n);
    }
}

/// A section that stands behind an artifact reads as the metadata section, up
/// to the end.
proof fn lemma_appended_section(artifact: Seq<u8>, payload: Seq<u8>) -> (start: int)
    requires
        payload.len() + 27 <= u32::MAX,
    ensures
        ({
            let all = artifact + section(payload);
            let end = all.len() as int;
            &&& section_at(all, artifact.len() as int) == Ok::<(u8, int, int), FramingFault>(
                (CUSTOM_SECTION_ID, start, end),
            )
            &&& payload_at(all, CUSTOM_SECTION_ID, start, end) == Ok::<Option<int>, FramingFault>(
                Some(start + 27),
            )
            &&& artifact.len() < start
            &&& start + 27 <= end
            &&& all.subrange(start + 27, end) == payload
        }),
{
    lemma_section_name_len();
    let content = uleb(section_name().len()) + section_name() + payload;
    let all = artifact + section(payload);
    assert(uleb(26) =~= seq![26u8]);
    assert(content.len() == payload.len() + 27);
    let head = artifact.push(CUSTOM_SECTION_ID);
    lemma_digits_read_back(head, content.len(), content, 0);
    assert(all =~= head + uleb(content.len()) + content);
    let start = (head.len() + uleb(content.len()).len()) as int;
    let end = all.len() as int;
    assert(all.take(end) =~= all);
    let pre = head + uleb(content.len());
    lemma_digits_read_back(pre, 26, section_name() + payload, 0);
    assert(all =~= pre + uleb(26) + (section_name() + payload));
    assert(all.subrange(start + 1, start + 27) =~= section_name());
    assert(all.subrange(start + 27, end) =~= payload);
    start
}

/// What was attached is what is declared: an artifact without a metadata
/// section declares, once a section is appended, exactly the payload of that
/// section.
pub proof fn law_attached_payload_is_declared(artifact: Seq<u8>, payload: Seq<u8>)
    requires
        declared(artifact) == Ok::<Option<(int, int)>, FramingFault>(None),
        payload.len() + 27 <= u32::MAX,
    ensures
        declared(artifact + section(payload)) is Ok,
        declared(artifact + section(payload))->Ok_0 is Some,
        span(
            artifact + section(payload),
            declared(artifact + section(payload))->Ok_0->0,
        ) == payload,
        (declared(artifact + section(payload))->Ok_0->0).1 == (artifact + section(payload)).len(),
{
    let x = section(payload);
    let all = artifact + x;
    lemma_walk_extends(artifact, x, PREAMBLE_LEN as int, None);
    let start = lemma_appended_section(artifact, payload);
    let end = all.len() as int;
    assert(walk(all, end, Some((start + 27, end))) == Ok::<Option<(int, int)>, FramingFault>(
        Some((start + 27, end)),
    ));
}

/// An artifact with a metadata section refuses a second one, however it is
/// assembled.
pub proof fn law_second_section_is_refused(artifact: Seq<u8>, payload: Seq<u8>)
    requires
        declared(artifact) is Ok,
        declared(artifact)->Ok_0 is Some,
        payload.len() + 27 <= u32::MAX,
    ensures
        declared(artifact + section(payload)) == Err::<Option<(int, int)>, FramingFault>(
            FramingFault::Duplicate,
        ),
{
    let x = section(payload);
    lemma_walk_extends(artifact, x, PREAMBLE_LEN as int, None);
    let start = lemma_appended_section(artifact, payload);
}

/// A length reads back as what was written, wherever it stands.
pub proof fn law_length_reads_back(pre: Seq<u8>, n: nat, post: Seq<u8>)
    requires
        n <= u32::MAX,
    ensures
        length_at(pre + uleb(n) + post, pre.len() as int) == Ok::<(nat, int), FramingFault>(
            (n, (pre.len() + uleb(n).len()) as int),
        ),
{
    lemma_digits_read_back(pre, n, post, 0);
}

/// An artifact declares the metadata it was attached: whatever attaching made,
/// extraction reads that metadata back from it. The artifact's own bytes are
/// untouched in front of the section.
pub proof fn law_attached_metadata_is_declared(
    artifact: Seq<u8>,
    metadata: PackageMetadata,
    lim: MetadataLimits,
    out: Seq<u8>,
    got: Result<Option<PackageMetadata>, VmStaticsError>,
)
    requires
        lim.wf(),
        attaches(out, artifact, metadata, lim),
        extracts(got, out, lim),
    ensures
        got is Ok,
        got->Ok_0 is Some,
        got->Ok_0->0.tree() == metadata.tree(),
        artifact.is_prefix_of(out),
        out.len() > artifact.len(),
{
    let payload = sbor_payload(metadata.tree());
    law_attached_payload_is_declared(artifact, payload);
    assert(section_of(span(out, declared(out)->Ok_0->0), metadata, lim));
    assert(artifact =~= out.take(artifact.len() as int));
}

/// What `k` bytes from `pos` on spell in base 128, lowest digit first, marks left
/// aside.
pub open spec fn spelled(bytes: Seq<u8>, pos: int, k: nat) -> nat
    decreases k,
{
    if k == 0 {
        0
    } else {
        (bytes[pos] % 128) as nat + 128 * spelled(bytes, pos + 1, (k - 1) as nat)
    }
}

/// Each of `k` bytes from `pos` on is there and marked as followed by another.
pub open spec fn marked(bytes: Seq<u8>, pos: int, k: nat) -> bool {
    0 <= pos && pos + k <= bytes.len() && forall|i: int|
        pos <= i < pos + k ==> #[trigger] bytes[i] >= 128
}

/// A number ends behind `k` digits from `pos` on: all but the last are marked.
pub open spec fn ends_behind(bytes: Seq<u8>, pos: int, k: nat) -> bool {
    1 <= k && marked(bytes, pos, (k - 1) as nat) && pos + k <= bytes.len() && bytes[pos + k - 1]
        < 128
}

proof fn lemma_digits(bytes: Seq<u8>, pos: int, seen: nat)
    requires
        0 <= pos <= bytes.len(),
        seen <= 4,
    ensures
        match digits_at(bytes, pos, seen) {
            Ok((n, end)) => {
                let k = (end - pos) as nat;
                pos < end && k <= 5 - seen && ends_behind(bytes, pos, k) && n == spelled(
                    bytes,
                    pos,
                    k,
                )
            },
            Err(FramingFault::LengthTruncated) => bytes.len() - pos < 5 - seen && marked(
                bytes,
                pos,
                (bytes.len() - pos) as nat,
            ),
            Err(FramingFault::LengthRange) => marked(bytes, pos, (5 - seen) as nat),
            Err(_) => false,
        },
    decreases 5 - seen,
{
    if pos < bytes.len() && bytes[pos] >= 128 && seen < 4 {
        lemma_digits(bytes, pos + 1, seen + 1);
        match digits_at(bytes, pos + 1, seen + 1) {
            Ok((n, end)) => {
                let k = (end - pos) as nat;
                assert(spelled(bytes, pos, k) == (bytes[pos] % 128) as nat + 128 * spelled(
                    bytes,
                    pos + 1,
                    (k - 1) as nat,
                ));
            },
            Err(_) => {},
        }
    } else if pos < bytes.len() && bytes[pos] < 128 {
        assert(spelled(bytes, pos, 1) == (bytes[pos] % 128) as nat + 128 * spelled(
            bytes,
            pos + 1,
            0,
        ));
        assert(ends_behind(bytes, pos, 1));
    }
}

/// A length is read exactly where at most five digits end within the bytes and
/// spell a 32-bit value: it is what they spell, and it ends behind them. It is
/// cut short where the bytes end on a marked digit, and out of range where five
/// digits are marked or spell too much.
pub proof fn law_a_length_is_what_its_digits_spell(bytes: Seq<u8>, pos: int, k: nat)
    requires
        0 <= pos <= bytes.len(),
    ensures
        k <= 5 && ends_behind(bytes, pos, k) && spelled(bytes, pos, k) <= u32::MAX ==> length_at(
            bytes,
            pos,
        ) == Ok::<(nat, int), FramingFault>((spelled(bytes, pos, k), pos + k)),
        k <= 5 && ends_behind(bytes, pos, k) && spelled(bytes, pos, k) > u32::MAX ==> length_at(
            bytes,
            pos,
        ) == Err::<(nat, int), FramingFault>(FramingFault::LengthRange),
        marked(bytes, pos, 5) ==> length_at(bytes, pos) == Err::<(nat, int), FramingFault>(
            FramingFault::LengthRange,
        ),
        bytes.len() - pos < 5 && marked(bytes, pos, (bytes.len() - pos) as nat) ==> length_at(
            bytes,
            pos,
        ) == Err::<(nat, int), FramingFault>(FramingFault::LengthTruncated),
{
    lemma_digits(bytes, pos, 0);
    match digits_at(bytes, pos, 0) {
        Ok((n, end)) => {
            let m = (end - pos) as nat;
            if ends_behind(bytes, pos, k) && k <= 5 {
                if k < m {
                    assert(bytes[pos + k - 1] >= 128);
                }
                if m < k {
                    assert(bytes[pos + m - 1] >= 128);
                }
            }
            if marked(bytes, pos, 5) {
                assert(bytes[pos + m - 1] >= 128);
            }
            if bytes.len() - pos < 5 && marked(bytes, pos, (bytes.len() - pos) as nat) {
                assert(bytes[pos + m - 1] >= 128);
            }
        },
        Err(FramingFault::LengthTruncated) => {
            if ends_behind(bytes, pos, k) {
                assert(bytes[pos + k - 1] >= 128);
            }
        },
        Err(_) => {
            if ends_behind(bytes, pos, k) && k <= 5 {
                assert(bytes[pos + k - 1] >= 128);
            }
        },
    }
}

proof fn lemma_spelled_shift(a: Seq<u8>, b: Seq<u8>, p: int, q: int, k: nat)
    requires
        forall|i: int| 0 <= i < k ==> a[p + i] == #[trigger] b[q + i],
    ensures
        spelled(a, p, k) == spelled(b, q, k),
    decreases k,
{
    if k > 0 {
        assert(a[p + 0] == b[q + 0]);
        assert forall|i: int| 0 <= i < k - 1 implies a[p + 1 + i] == #[trigger] b[q + 1 + i] by {
            assert(a[p + (i + 1)] == b[q + (i + 1)]);
        }
        lemma_spelled_shift(a, b, p + 1, q + 1, (k - 1) as nat);
    }
}

/// A length is written as the digits that spell it, every one but the last
/// marked, and with no digit more than it takes.
pub proof fn law_a_length_is_written_in_digits(n: nat)
    ensures
        ends_behind(uleb(n), 0, uleb(n).len()),
        spelled(uleb(n), 0, uleb(n).len()) == n,
        uleb(n).len() > 1 ==> uleb(n).last() != 0,
    decreases n,
{
    let s = uleb(n);
    if n < 128 {
        assert(spelled(s, 0, 1) == (s[0] % 128) as nat + 128 * spelled(s, 1, 0));
    } else {
        let rest = uleb(n / 128);
        law_a_length_is_written_in_digits(n / 128);
        let k = s.len();
        assert(s =~= seq![(n % 128 + 128) as u8] + rest);
        assert forall|i: int| 0 <= i < rest.len() implies s[1 + i] == #[trigger] rest[0 + i] by {}
        lemma_spelled_shift(s, rest, 1, 0, rest.len());
        assert(spelled(s, 0, k) == (s[0] % 128) as nat + 128 * spelled(s, 1, (k - 1) as nat));
        assert((s[0] % 128) as nat == n % 128);
        assert(marked(s, 0, (k - 1) as nat)) by {
            assert forall|i: int| 0 <= i < k - 1 implies #[trigger] s[i] >= 128 by {
                if i > 0 {
                    assert(s[i] == rest[i - 1]);
                }
            }
        }
        assert(s[k - 1] == rest[rest.len() - 1]);
    }
}

/// Where sections lie: the first starts at the front, each starts where the last
/// one ends, by its own length, and the last ends with the bytes.
pub open spec fn sections_at(bytes: Seq<u8>, cuts: Seq<int>) -> bool {
    &&& cuts.len() > 0
    &&& cuts.last() == bytes.len()
    &&& forall|i: int|
        #![trigger cuts[i]]
        0 <= i < cuts.len() - 1 ==> cuts[i] < bytes.len() && match length_at(bytes, cuts[i] + 1) {
            Ok((size, start)) => start + size == cuts[i + 1],
            Err(_) => false,
        }
}

/// The section at a cut is the metadata section: a custom section that opens with
/// its name, whose payload spans these bytes up to the next cut.
pub open spec fn is_metadata(bytes: Seq<u8>, cuts: Seq<int>, i: int, span: (int, int)) -> bool {
    &&& 0 <= i < cuts.len() - 1
    &&& bytes[cuts[i]] == 0
    &&& span.1 == cuts[i + 1]
    &&& match length_at(bytes.take(cuts[i + 1]), (length_at(bytes, cuts[i] + 1)->Ok_0).1) {
        Ok((len, inner)) => inner + len == span.0 && span.0 <= span.1 && bytes.subrange(
            inner,
            span.0,
        ) == section_name(),
        Err(_) => false,
    }
}

proof fn lemma_walk(bytes: Seq<u8>, pos: int, found: Option<(int, int)>)
    requires
        0 <= pos <= bytes.len(),
        walk(bytes, pos, found) is Ok,
    ensures
        exists|cuts: Seq<int>| #[trigger]
            sections_at(bytes, cuts) && cuts[0] == pos && walked(
                bytes,
                cuts,
                found,
                walk(bytes, pos, found)->Ok_0,
            ),
    decreases bytes.len() - pos,
{
    let out = walk(bytes, pos, found)->Ok_0;
    if pos >= bytes.len() {
        let cuts = seq![pos];
        assert(sections_at(bytes, cuts) && cuts[0] == pos);
        assert(walked(bytes, cuts, found, out));
    } else {
        lemma_section_end(bytes, pos);
        let (id, start, end) = section_at(bytes, pos)->Ok_0;
        let payload = payload_at(bytes, id, start, end)->Ok_0;
        let next = match payload {
            Some(inner) => Some((inner, end)),
            None => found,
        };
        lemma_walk(bytes, end, next);
        let rest = choose|cuts: Seq<int>| #[trigger]
            sections_at(bytes, cuts) && cuts[0] == end && walked(bytes, cuts, next, out);
        let cuts = seq![pos] + rest;
        assert(cuts[0] == pos && cuts[1] == end);
        assert forall|i: int| 0 < i < cuts.len() implies cuts[i] == #[trigger] rest[i - 1] by {}
        assert forall|i: int|
            #![trigger cuts[i]]
            0 <= i < cuts.len() - 1 implies cuts[i] < bytes.len() && match length_at(
            bytes,
            cuts[i] + 1,
        ) {
            Ok((size, start)) => start + size == cuts[i + 1],
            Err(_) => false,
        } by {
            if i > 0 {
                assert(cuts[i] == rest[i - 1]);
                assert(cuts[i + 1] == rest[i]);
            }
        }
        assert(cuts.last() == rest.last());
        assert(sections_at(bytes, cuts));
        assert forall|i: int, s: (int, int)| #[trigger]
            is_metadata(bytes, cuts, i, s) implies (if i == 0 {
            payload == Some(s.0) && s.1 == end
        } else {
            is_metadata(bytes, rest, i - 1, s)
        }) by {
            if i > 0 {
                assert(cuts[i] == rest[i - 1]);
                assert(cuts[i + 1] == rest[i]);
            }
        }
        assert forall|i: int, s: (int, int)| #[trigger]
            is_metadata(bytes, rest, i, s) implies is_metadata(bytes, cuts, i + 1, s) by {
            assert(cuts[i + 1] == rest[i]);
            assert(cuts[i + 2] == rest[i + 1]);
        }
        match payload {
            Some(inner) => {
                assert(is_metadata(bytes, cuts, 0, (inner, end)));
                assert(out == next);
                assert forall|i: int, s: (int, int)| #[trigger]
                    is_metadata(bytes, cuts, i, s) implies out == Some(s) by {
                    if i > 0 {
                        assert(is_metadata(bytes, rest, i - 1, s));
                    }
                }
            },
            None => {
                assert forall|i: int, s: (int, int)| #[trigger]
                    is_metadata(bytes, cuts, i, s) implies found is None && out == Some(s) by {
                    assert(i > 0);
                    assert(is_metadata(bytes, rest, i - 1, s));
                }
                if out is Some && found is None {
                    let (i, s) = choose|i: int, s: (int, int)| #[trigger]
                        is_metadata(bytes, rest, i, s);
                    assert(is_metadata(bytes, cuts, i + 1, s));
                }
            },
        }
        assert(walked(bytes, cuts, found, out));
    }
}

/// The outcome of a walk over sections, where something may have been found
/// before them: nothing more is found behind a find, and what is found is the
/// one metadata section there is.
pub open spec fn walked(
    bytes: Seq<u8>,
    cuts: Seq<int>,
    found: Option<(int, int)>,
    out: Option<(int, int)>,
) -> bool {
    &&& found is Some ==> out == found
    &&& forall|i: int, s: (int, int)| #[trigger]
        is_metadata(bytes, cuts, i, s) ==> found is None && out == Some(s)
    &&& out is Some && found is None ==> exists|i: int, s: (int, int)| #[trigger]
        is_metadata(bytes, cuts, i, s)
}

/// Finding the metadata section goes by the sections alone: an artifact that
/// reads opens with the preamble and is made up of sections behind it to its
/// end, and what is found is the payload of its metadata section, the only one
/// there is; nothing is found exactly where none is.
pub proof fn law_the_section_found_is_the_only_one(bytes: Seq<u8>)
    requires
        declared(bytes) is Ok,
    ensures
        bytes.len() >= 8,
        bytes.take(4) == seq![0u8, 97u8, 115u8, 109u8],
        exists|cuts: Seq<int>| #[trigger]
            sections_at(bytes, cuts) && cuts[0] == 8 && (forall|i: int, s: (int, int)| #[trigger]
                is_metadata(bytes, cuts, i, s) ==> declared(bytes)->Ok_0 == Some(s)) && (declared(
                bytes,
            )->Ok_0 is Some ==> exists|i: int, s: (int, int)| #[trigger]
                is_metadata(bytes, cuts, i, s)),
{
    assert(bytes.take(4) =~= seq![0u8, 97u8, 115u8, 109u8]);
    lemma_walk(bytes, 8, None);
    let cuts = choose|cuts: Seq<int>| #[trigger]
        sections_at(bytes, cuts) && cuts[0] == 8 && walked(
            bytes,
            cuts,
            None,
            declared(bytes)->Ok_0,
        );
    assert(sections_at(bytes, cuts) && cuts[0] == 8);
}

/// Why metadata cannot be attached, in the order of the questions: the artifact is
/// not framed, it declares a section already, or the metadata is past a bound,
/// past the encoding's depth or too long.
pub proof fn law_an_attachment_is_refused_for_the_first_reason(
    artifact: Seq<u8>,
    metadata: PackageMetadata,
    lim: MetadataLimits,
    e: VmStaticsError,
)
    requires
        attach_refused_as(artifact, metadata, lim, e),
    ensures
        e is Framing <==> declared(artifact) is Err,
        e is Framing ==> Err::<Option<(int, int)>, FramingFault>(e->Framing_0) == declared(artifact),
        e is AlreadyDeclared <==> declared(artifact) is Ok && declared(artifact)->Ok_0 is Some,
        e is EventTable || e is Method <==> declared(artifact) == Ok::<
            Option<(int, int)>,
            FramingFault,
        >(None) && !metadata.bounded(lim),
        e is MetadataOversized ==> e->MetadataOversized_bytes == sbor_payload(metadata.tree()).len()
            && sbor_payload(metadata.tree()).len() > lim.max_bytes,
        e is MetadataEncode ==> !encodable(metadata.tree(), lim.sbor_depth()),
{
}

} // verus!
