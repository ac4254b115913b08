//! Package metadata and its canonical section bytes.
use vstd::prelude::*;
use vstd::utf8::encode_utf8;

use crate::bridge::checks::{check_signature, signature_fault, MetadataLimits};
use crate::bridge::codec::{
    decodable, decode, decode_fault, encodable, encode, encode_fault, unread,
};
use crate::bridge::depth::law_bounded_metadata_settles;
use crate::bridge::error::VmStaticsError;
use crate::bridge::same::lemma_same_method;
use crate::bridge::sbor_value::{
    plain, sbor_encode_refusal, sbor_payload, sbor_tree, sbor_trees, SborValue, Tree, KIND_RECORD,
};
use crate::bridge::signature::{MethodEntry, MethodSignature};
use crate::bridge::wire::{
    lemma_list_plain, list_from_wire, list_to_wire, list_tree, record, record_of, take2, trees,
    Wire,
};
use crate::order::{
    lemma_lex_asymmetric, lemma_lex_irreflexive, lemma_lex_transitive, lex_lt, rank_bytes, Rank,
};

verus! {

/// What a package declares: its methods and its event table.
#[derive(Debug, PartialEq, Eq)]
pub struct PackageMetadata {
    /// The methods, ascending by name.
    pub methods: Vec<MethodEntry>,
    /// The event types, by index.
    pub events: Vec<String>,
}

/// One name comes before another: its bytes do.
pub open spec fn name_before(a: Seq<char>, b: Seq<char>) -> bool {
    lex_lt(encode_utf8(a), encode_utf8(b))
}

/// The method at `i` follows its predecessor's name.
pub open spec fn in_order_at(methods: Seq<MethodEntry>, i: int) -> bool {
    i == 0 || name_before(methods[i - 1].name@, methods[i].name@)
}

impl PackageMetadata {
    /// The methods ascend by name.
    pub open spec fn wf(&self) -> bool {
        forall|i: int|
            0 <= i < self.methods@.len() ==> #[trigger] in_order_at(self.methods@, i)
    }

    /// The event table is within reach of an event index, and every signature
    /// is within bounds.
    pub open spec fn bounded(&self, lim: MetadataLimits) -> bool {
        &&& self.events@.len() <= lim.max_event_types
        &&& forall|i: int|
            0 <= i < self.methods@.len() ==> signature_fault(
                (#[trigger] self.methods@[i]).signature,
                lim,
            ) is None
    }

    /// The error names the first bound that the metadata is past.
    pub open spec fn refused_as(&self, lim: MetadataLimits, e: VmStaticsError) -> bool {
        if self.events@.len() > lim.max_event_types {
            e is EventTable && e->types == self.events@.len()
        } else {
            exists|i: int|
                #![trigger self.methods@[i]]
                {
                    &&& 0 <= i < self.methods@.len()
                    &&& e is Method
                    &&& e->Method_method@ == self.methods@[i].name@
                    &&& signature_fault(self.methods@[i].signature, lim) == Some(e->fault)
                    &&& forall|j: int|
                        0 <= j < i ==> signature_fault(
                            (#[trigger] self.methods@[j]).signature,
                            lim,
                        ) is None
                }
        }
    }

    /// Files a method under its name; a method of that name is replaced.
    pub fn insert_method(&mut self, name: String, signature: MethodSignature)
        requires
            old(self).wf(),
        ensures
            final(self).wf(),
            final(self).events == old(self).events,
            exists|i: int|
                0 <= i < final(self).methods@.len() && (#[trigger] final(self).methods@[i])
                    == (MethodEntry { name, signature }) && (final(self).methods@ == old(
                    self,
                ).methods@.insert(i, MethodEntry { name, signature }) || (i < old(
                    self,
                ).methods@.len() && old(self).methods@[i].name@ == name@ && final(self).methods@
                    == old(self).methods@.update(i, MethodEntry { name, signature }))),
    {
        let ghost before = self.methods@;
        let mut i: usize = 0;
        while i < self.methods.len()
            invariant
                i <= self.methods@.len(),
                before == old(self).methods@,
                self.methods@ == before,
                self.events == old(self).events,
                self.wf(),
                i > 0 ==> name_before(before[i - 1].name@, name@),
            ensures
                i <= self.methods@.len(),
                self.methods@ == before,
                self.events == old(self).events,
                self.wf(),
                i > 0 ==> name_before(before[i - 1].name@, name@),
                i < self.methods@.len() ==> name_before(name@, before[i as int].name@),
            decreases self.methods@.len() - i,
        {
            assert(in_order_at(before, i as int));
            match rank_bytes(self.methods[i].name.as_str().as_bytes(), name.as_str().as_bytes()) {
                Rank::Before => {},
                Rank::Same => {
                    proof {
                        assert(encode_utf8(before[i as int].name@) == encode_utf8(name@));
                        vstd::utf8::encode_utf8_decode_utf8(name@);
                        vstd::utf8::encode_utf8_decode_utf8(before[i as int].name@);
                    }
                    assert(before[i as int].name@ == name@);
                    self.methods.set(i, MethodEntry { name, signature });
                    proof {
                        assert forall|k: int| 0 <= k < self.methods@.len() implies #[trigger]
                            in_order_at(self.methods@, k) by {
                            assert(in_order_at(before, k));
                        }
                        assert(self.methods@[i as int] == (MethodEntry { name, signature }));
                    }
                    return;
                },
                Rank::After => {
                    break;
                },
            }
            i = i + 1;
        }
        self.methods.insert(i, MethodEntry { name, signature });
        proof {
            assert forall|k: int| 0 <= k < self.methods@.len() implies #[trigger] in_order_at(
                self.methods@,
                k,
            ) by {
                if k < i {
                    assert(in_order_at(before, k));
                } else if k > i + 1 {
                    assert(in_order_at(before, k - 1));
                }
            }
            assert(self.methods@[i as int] == (MethodEntry { name, signature }));
        }
    }
}

impl Default for PackageMetadata {
    fn default() -> (m: Self)
        ensures
            m.methods@ == Seq::<MethodEntry>::empty(),
            m.events@ == Seq::<String>::empty(),
            m.wf(),
    {
        PackageMetadata { methods: Vec::new(), events: Vec::new() }
    }
}

impl Wire for PackageMetadata {
    open spec fn tree(self) -> Tree {
        Tree::Record(seq![list_tree(self.methods@), list_tree(self.events@)])
    }

    open spec fn wire_kind() -> u8 {
        KIND_RECORD
    }

    proof fn law_kind(x: Self) {
    }

    proof fn law_plain(x: Self) {
        lemma_list_plain(x.methods@);
        lemma_list_plain(x.events@);
        let parts = x.tree()->Record_0;
        assert forall|i: int| 0 <= i < parts.len() implies plain(#[trigger] parts[i]) by {}
    }

    fn kind() -> (k: u8) {
        KIND_RECORD
    }

    fn to_wire(&self) -> (v: SborValue) {
        let mut fields: Vec<SborValue> = Vec::new();
        fields.push(list_to_wire(&self.methods));
        fields.push(list_to_wire(&self.events));
        assert(sbor_trees(fields@) =~= self.tree()->Record_0);
        record(fields)
    }

    fn from_wire(v: SborValue) -> (r: Option<Self>) {
        proof {
            assert forall|x: Self| (#[trigger] x.tree()) is Record && x.tree()->Record_0.len() == 2 by {}
        }
        let ghost t = sbor_tree(v);
        match record_of(v) {
            None => None,
            Some(fields) => {
                let ghost ts = sbor_trees(fields@);
                match take2(fields) {
                    None => None,
                    Some((a, b)) => {
                        assert(ts =~= seq![sbor_tree(a), sbor_tree(b)]);
                        let ghost ta = sbor_tree(a);
                        let ghost tb = sbor_tree(b);
                        match (list_from_wire::<MethodEntry>(a), list_from_wire::<String>(b)) {
                            (Some(methods), Some(events)) => Some(
                                PackageMetadata { methods, events },
                            ),
                            _ => {
                                proof {
                                    assert forall|x: Self| #[trigger] x.tree() != t by {
                                        assert(x.tree()->Record_0[0] == list_tree(x.methods@));
                                        assert(x.tree()->Record_0[1] == list_tree(x.events@));
                                    }
                                }
                                None
                            },
                        }
                    },
                }
            },
        }
    }
}

/// Finds the first bound that metadata is past.
pub fn check_metadata(metadata: &PackageMetadata, lim: &MetadataLimits) -> (r: Result<
    (),
    VmStaticsError,
>)
    requires
        lim.wf(),
    ensures
        match r {
            Ok(_) => metadata.bounded(*lim),
            Err(e) => !metadata.bounded(*lim) && metadata.refused_as(*lim, e),
        },
{
    if metadata.events.len() > lim.max_event_types {
        return Err(VmStaticsError::EventTable { types: metadata.events.len() });
    }
    let mut i: usize = 0;
    while i < metadata.methods.len()
        invariant
            i <= metadata.methods@.len(),
            lim.wf(),
            metadata.events@.len() <= lim.max_event_types,
            forall|j: int|
                0 <= j < i ==> signature_fault(
                    (#[trigger] metadata.methods@[j]).signature,
                    *lim,
                ) is None,
        decreases metadata.methods@.len() - i,
    {
        let entry = &metadata.methods[i];
        match check_signature(&entry.signature, lim) {
            Some(fault) => {
                assert(metadata.methods@[i as int] == *entry);
                return Err(VmStaticsError::Method { method: entry.name.clone(), fault });
            },
            None => {},
        }
        i = i + 1;
    }
    Ok(())
}

/// The canonical section bytes of metadata, or the first reason there are
/// none.
pub fn encode_metadata(metadata: &PackageMetadata, lim: &MetadataLimits) -> (r: Result<
    Vec<u8>,
    VmStaticsError,
>)
    requires
        lim.wf(),
        metadata.wf(),
    ensures
        match r {
            Ok(b) => metadata.bounded(*lim) && encodable(metadata.tree(), lim.sbor_depth()) && b@
                == sbor_payload(metadata.tree()) && b@.len() <= lim.max_bytes,
            Err(e) => if !metadata.bounded(*lim) {
                metadata.refused_as(*lim, e)
            } else if !encodable(metadata.tree(), lim.sbor_depth()) {
                e is MetadataEncode && sbor_encode_refusal(metadata.tree(), lim.sbor_depth() + 1)
                    == Some(e->MetadataEncode_reason@)
            } else {
                e is MetadataOversized && e->MetadataOversized_bytes == sbor_payload(
                    metadata.tree(),
                ).len() && e->MetadataOversized_bytes > lim.max_bytes
            },
        },
{
    match check_metadata(metadata, lim) {
        Err(e) => {
            return Err(e);
        },
        Ok(_) => {},
    }
    let limit = lim.depth_limit();
    match encode(metadata, limit) {
        None => {
            proof {
                law_bounded_metadata_settles(*metadata, *lim);
            }
            Err(VmStaticsError::MetadataEncode { reason: encode_fault(metadata, limit) })
        },
        Some(bytes) => {
            if bytes.len() > lim.max_bytes {
                Err(VmStaticsError::MetadataOversized { bytes: bytes.len() })
            } else {
                Ok(bytes)
            }
        },
    }
}

/// The bytes are the payload of this metadata, whatever its order and bounds.
pub open spec fn reads_as(bytes: Seq<u8>, x: PackageMetadata, lim: MetadataLimits) -> bool {
    decodable(x.tree(), lim.sbor_depth()) && bytes == sbor_payload(x.tree())
}

/// Metadata that the bytes are the section of: in order, within bounds and
/// within the byte cap.
pub open spec fn section_of(bytes: Seq<u8>, x: PackageMetadata, lim: MetadataLimits) -> bool {
    reads_as(bytes, x, lim) && x.wf() && x.bounded(lim) && bytes.len() <= lim.max_bytes
}

/// The error names the first reason why the bytes are no metadata section.
pub open spec fn section_refused_as(bytes: Seq<u8>, lim: MetadataLimits, e: VmStaticsError) -> bool {
    if bytes.len() > lim.max_bytes {
        e is SectionOversized && e->SectionOversized_bytes == bytes.len()
    } else if forall|x: PackageMetadata| !#[trigger] reads_as(bytes, x, lim) {
        e is MetadataMalformed && e->MetadataMalformed_reason@ == unread(bytes, lim.sbor_depth())
    } else {
        exists|x: PackageMetadata| #[trigger]
            reads_as(bytes, x, lim) && if !x.wf() {
                e is MethodOrder && out_of_order_at(x.methods@, e->MethodOrder_method@)
            } else {
                !x.bounded(lim) && x.refused_as(lim, e)
            }
    }
}

/// The first method out of order has this name.
pub open spec fn out_of_order_at(methods: Seq<MethodEntry>, name: Seq<char>) -> bool {
    exists|i: int|
        #![trigger methods[i]]
        {
            &&& 0 <= i < methods.len()
            &&& !in_order_at(methods, i)
            &&& methods[i].name@ == name
            &&& forall|j: int| 0 <= j < i ==> #[trigger] in_order_at(methods, j)
        }
}

/// Reads a metadata section. Whatever metadata the bytes are the section of is
/// read back, and nothing else is.
pub fn decode_metadata(bytes: &[u8], lim: &MetadataLimits) -> (r: Result<
    PackageMetadata,
    VmStaticsError,
>)
    requires
        lim.wf(),
    ensures
        match r {
            Ok(m) => section_of(bytes@, m, *lim),
            Err(e) => section_refused_as(bytes@, *lim, e),
        },
        forall|x: PackageMetadata|
            #[trigger] section_of(bytes@, x, *lim) ==> r is Ok && r->Ok_0.tree() == x.tree(),
{
    if bytes.len() > lim.max_bytes {
        return Err(VmStaticsError::SectionOversized { bytes: bytes.len() });
    }
    let metadata = match decode::<PackageMetadata>(bytes, lim.depth_limit()) {
        Some(metadata) => metadata,
        None => {
            proof {
                assert forall|x: PackageMetadata| !#[trigger] reads_as(bytes@, x, *lim) by {
                    assert(!(decodable(x.tree(), lim.sbor_depth()) && bytes@ == sbor_payload(
                        x.tree(),
                    )));
                }
            }
            return Err(
                VmStaticsError::MetadataMalformed { reason: decode_fault(bytes, lim.depth_limit()) },
            );
        },
    };
    assert(reads_as(bytes@, metadata, *lim));
    proof {
        assert forall|x: PackageMetadata| #[trigger] section_of(
            bytes@,
            x,
            *lim,
        ) implies metadata.tree() == x.tree() && metadata.wf() && metadata.bounded(*lim) by {
            assert(reads_as(bytes@, x, *lim));
            lemma_same_metadata(metadata, x, *lim);
        }
    }
    let mut i: usize = 1;
    while i < metadata.methods.len()
        invariant
            1 <= i,
            i <= metadata.methods@.len() || i == 1,
            forall|j: int|
                0 <= j < i && j < metadata.methods@.len() ==> #[trigger] in_order_at(
                    metadata.methods@,
                    j,
                ),
            reads_as(bytes@, metadata, *lim),
            bytes@.len() <= lim.max_bytes,
            forall|x: PackageMetadata| #[trigger]
                section_of(bytes@, x, *lim) ==> metadata.tree() == x.tree() && metadata.wf()
                    && metadata.bounded(*lim),
        decreases metadata.methods@.len() - i,
    {
        let before = metadata.methods[i - 1].name.as_str();
        let name = metadata.methods[i].name.as_str();
        let rank = rank_bytes(before.as_bytes(), name.as_bytes());
        match rank {
            Rank::Before => {},
            _ => {
                proof {
                    lemma_lex_irreflexive(encode_utf8(before@));
                    if rank is After {
                        lemma_lex_asymmetric(encode_utf8(name@), encode_utf8(before@));
                    }
                    assert(!in_order_at(metadata.methods@, i as int));
                    assert(!metadata.wf());
                    assert(out_of_order_at(
                        metadata.methods@,
                        metadata.methods@[i as int].name@,
                    ));
                }
                return Err(
                    VmStaticsError::MethodOrder { method: metadata.methods[i].name.clone() },
                );
            },
        }
        assert(in_order_at(metadata.methods@, i as int));
        i = i + 1;
    }
    assert(metadata.wf());
    match check_metadata(&metadata, lim) {
        Err(e) => Err(e),
        Ok(_) => Ok(metadata),
    }
}

/// Metadata with one form names the same methods.
pub proof fn lemma_same_names(x: PackageMetadata, y: PackageMetadata, lim: MetadataLimits)
    requires
        x.tree() == y.tree(),
    ensures
        x.methods@.len() == y.methods@.len(),
        forall|i: int|
            0 <= i < x.methods@.len() ==> (#[trigger] x.methods@[i]).name@ == y.methods@[i].name@,
{
    let a = x.tree()->Record_0;
    let b = y.tree()->Record_0;
    assert(a == b);
    assert(a[0] == b[0]);
    assert(trees(x.methods@) == trees(y.methods@));
    assert(trees(x.methods@).len() == x.methods@.len() && trees(y.methods@).len() == y.methods@.len());
    assert forall|i: int| 0 <= i < x.methods@.len() implies (#[trigger] x.methods@[i]).name@
        == y.methods@[i].name@ by {
        assert(trees(x.methods@)[i] == x.methods@[i].tree());
        assert(trees(y.methods@)[i] == y.methods@[i].tree());
        lemma_same_method(x.methods@[i], y.methods@[i], lim);
    }
}

/// Metadata with one form is in the same order and within the same bounds.
pub proof fn lemma_same_metadata(x: PackageMetadata, y: PackageMetadata, lim: MetadataLimits)
    requires
        x.tree() == y.tree(),
    ensures
        x.wf() == y.wf(),
        x.bounded(lim) == y.bounded(lim),
{
    let a = x.tree()->Record_0;
    let b = y.tree()->Record_0;
    assert(a == b);
    assert(a[0] == b[0] && a[1] == b[1]);
    let ms = x.methods@;
    let ns = y.methods@;
    assert(trees(ms) == trees(ns));
    assert(trees(x.events@) == trees(y.events@));
    assert(trees(ms).len() == ms.len() && trees(ns).len() == ns.len());
    assert(trees(x.events@).len() == x.events@.len() && trees(y.events@).len() == y.events@.len());
    assert forall|i: int| 0 <= i < ms.len() implies #[trigger] ms[i].name@ == ns[i].name@
        && signature_fault(ms[i].signature, lim) == signature_fault(ns[i].signature, lim) by {
        assert(trees(ms)[i] == ms[i].tree());
        assert(trees(ns)[i] == ns[i].tree());
        lemma_same_method(ms[i], ns[i], lim);
    }
    assert forall|i: int| 0 <= i < ms.len() implies in_order_at(ms, i) == in_order_at(ns, i) by {
        if i > 0 {
            assert(ms[i - 1].name@ == ns[i - 1].name@);
        }
        assert(ms[i].name@ == ns[i].name@);
    }
    if x.wf() {
        assert forall|i: int| 0 <= i < ns.len() implies #[trigger] in_order_at(ns, i) by {
            assert(in_order_at(ms, i));
        }
    }
    if y.wf() {
        assert forall|i: int| 0 <= i < ms.len() implies #[trigger] in_order_at(ms, i) by {
            assert(in_order_at(ns, i));
        }
    }
    if x.bounded(lim) {
        assert forall|i: int| 0 <= i < ns.len() implies signature_fault(
            (#[trigger] ns[i]).signature,
            lim,
        ) is None by {
            assert(signature_fault(ms[i].signature, lim) is None);
            assert(ms[i].name@ == ns[i].name@);
        }
    }
    if y.bounded(lim) {
        assert forall|i: int| 0 <= i < ms.len() implies signature_fault(
            (#[trigger] ms[i]).signature,
            lim,
        ) is None by {
            assert(signature_fault(ns[i].signature, lim) is None);
            assert(ms[i].name@ == ns[i].name@);
        }
    }
}

/// Methods in order ascend by their names' bytes, so no name occurs twice.
pub proof fn law_methods_ascend_by_name(m: PackageMetadata, i: int, j: int)
    requires
        m.wf(),
        0 <= i < j < m.methods@.len(),
    ensures
        lex_lt(encode_utf8(m.methods@[i].name@), encode_utf8(m.methods@[j].name@)),
        m.methods@[i].name@ != m.methods@[j].name@,
    decreases j - i,
{
    assert(in_order_at(m.methods@, j));
    if i < j - 1 {
        law_methods_ascend_by_name(m, i, j - 1);
        lemma_lex_transitive(
            encode_utf8(m.methods@[i].name@),
            encode_utf8(m.methods@[j - 1].name@),
            encode_utf8(m.methods@[j].name@),
        );
    }
    lemma_lex_irreflexive(encode_utf8(m.methods@[i].name@));
}

/// The bound that is named is one that the metadata is past, and the first: the
/// event table before any method, and a method before those behind it.
pub proof fn law_the_bound_named_is_the_first_past(
    m: PackageMetadata,
    lim: MetadataLimits,
    e: VmStaticsError,
)
    requires
        m.refused_as(lim, e),
    ensures
        !m.bounded(lim),
        e is EventTable || e is Method,
        e is EventTable <==> m.events@.len() > lim.max_event_types,
        e is EventTable ==> e->types == m.events@.len(),
        e is Method ==> exists|i: int|
            #![trigger m.methods@[i]]
            0 <= i < m.methods@.len() && m.methods@[i].name@ == e->Method_method@
                && signature_fault(m.methods@[i].signature, lim) == Some(e->fault) && forall|j: int|
                0 <= j < i ==> signature_fault((#[trigger] m.methods@[j]).signature, lim) is None,
{
}

/// Why bytes are no section, in the order of the questions: too long, of no form
/// that reads, methods out of order, or past a bound. Each is said exactly where
/// the questions before it are answered well.
pub proof fn law_a_section_is_refused_for_the_first_reason(
    bytes: Seq<u8>,
    lim: MetadataLimits,
    e: VmStaticsError,
)
    requires
        section_refused_as(bytes, lim, e),
    ensures
        e is SectionOversized <==> bytes.len() > lim.max_bytes,
        e is SectionOversized ==> e->SectionOversized_bytes == bytes.len(),
        e is MetadataMalformed <==> bytes.len() <= lim.max_bytes && forall|x: PackageMetadata|
            !(decodable(#[trigger] x.tree(), lim.sbor_depth()) && bytes == sbor_payload(x.tree())),
        e is MethodOrder ==> exists|x: PackageMetadata, i: int|
            #![trigger x.methods@[i]]
            bytes == sbor_payload(x.tree()) && 1 <= i < x.methods@.len() && x.methods@[i].name@
                == e->MethodOrder_method@ && !lex_lt(
                encode_utf8(x.methods@[i - 1].name@),
                encode_utf8(x.methods@[i].name@),
            ),
        e is EventTable || e is Method ==> exists|x: PackageMetadata|
            #![trigger x.tree()]
            bytes == sbor_payload(x.tree()) && x.wf() && x.refused_as(lim, e),
        e is SectionOversized || e is MetadataMalformed || e is MethodOrder || e is EventTable || e
            is Method,
{
    assert(forall|x: PackageMetadata|
        reads_as(bytes, x, lim) == (decodable(#[trigger] x.tree(), lim.sbor_depth()) && bytes
            == sbor_payload(x.tree())));
    if bytes.len() <= lim.max_bytes && exists|x: PackageMetadata| #[trigger] reads_as(bytes, x, lim) {
        let x = choose|x: PackageMetadata| #[trigger]
            reads_as(bytes, x, lim) && if !x.wf() {
                e is MethodOrder && out_of_order_at(x.methods@, e->MethodOrder_method@)
            } else {
                !x.bounded(lim) && x.refused_as(lim, e)
            };
        assert(decodable(x.tree(), lim.sbor_depth()) && bytes == sbor_payload(x.tree()));
        if !x.wf() {
            let name = e->MethodOrder_method@;
            let methods = x.methods@;
            let i = choose|i: int|
                #![trigger methods[i]]
                {
                    &&& 0 <= i < methods.len()
                    &&& !in_order_at(methods, i)
                    &&& methods[i].name@ == name
                    &&& forall|j: int| 0 <= j < i ==> #[trigger] in_order_at(methods, j)
                };
            assert(x.methods@[i].name@ == name);
        }
    }
}

} // verus!
