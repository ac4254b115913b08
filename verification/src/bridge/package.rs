//! What a publish admits.
use vstd::prelude::*;
use wasmparser::Payload::{ComponentExportSection, ComponentSection, End, ModuleSection};
use wasmparser::ComponentExternalKind::Func;
use wasmparser::Parser;

use crate::bridge::artifact::{declared, extract_metadata, span};
use crate::bridge::checks::MetadataLimits;
use crate::bridge::error::{FramingFault, VmStaticsError};
use crate::bridge::metadata::{
    law_a_section_is_refused_for_the_first_reason, lemma_same_names, section_of, section_refused_as,
    PackageMetadata,
};
use crate::bridge::signature::MethodEntry;
use crate::bridge::wire::Wire;

verus! {

/// A nested module or component opens.
pub const PART_ENTER: u8 = 0;

/// A module or component closes.
pub const PART_LEAVE: u8 = 1;

/// A component exports a function under a name.
pub const PART_FUNC: u8 = 2;

/// A component exports something else under a name.
pub const PART_OTHER: u8 = 3;

/// An export does not parse; the name is what the parser says.
pub const PART_FAULT: u8 = 4;

/// The artifact does not parse further; the name is what the parser says.
pub const PART_BROKEN: u8 = 5;

/// The nesting and the exports of a component artifact, in order, as far as it
/// parses.
pub uninterp spec fn component_parts(bytes: Seq<u8>) -> Seq<(u8, Seq<char>)>;

/// The kind and name of each part.
pub open spec fn part_views(parts: Seq<(u8, String)>) -> Seq<(u8, Seq<char>)> {
    Seq::new(parts.len(), |i: int| (parts[i].0, parts[i].1@))
}

/// Calls `wasmparser::Parser::parse_all` and reads every component export
/// section. Claims that what nests, what is exported and what does not parse,
/// in order, are functions of the artifact's bytes.
#[verifier::external_body]
fn parse_component(artifact: &[u8]) -> (parts: Vec<(u8, String)>)
    ensures
        part_views(parts@) == component_parts(artifact@),
{
    let mut out = Vec::new();
    for payload in Parser::new(0).parse_all(artifact) {
        match payload {
            Ok(ModuleSection { .. } | ComponentSection { .. }) => out.push((PART_ENTER, String::new())),
            Ok(End(_)) => out.push((PART_LEAVE, String::new())),
            Ok(ComponentExportSection(exports)) => out.extend(exports.into_iter().map(|e| match e {
                Ok(e) if e.kind == Func => (PART_FUNC, e.name.name.into()),
                Ok(e) => (PART_OTHER, e.name.name.into()),
                Err(e) => (PART_FAULT, e.to_string()),
            })),
            Ok(_) => {},
            Err(e) => out.push((PART_BROKEN, e.to_string())),
        }
    }
    out
}

/// How deep the first `n` parts leave the nesting.
pub open spec fn nesting(parts: Seq<(u8, Seq<char>)>, n: nat) -> nat
    decreases n,
{
    if n == 0 || n > parts.len() {
        0
    } else {
        let before = nesting(parts, (n - 1) as nat);
        if parts[n - 1].0 == PART_ENTER {
            before + 1
        } else if parts[n - 1].0 == PART_LEAVE && before > 0 {
            (before - 1) as nat
        } else {
            before
        }
    }
}

/// Part `i` is of a kind and belongs to the outermost component.
pub open spec fn outermost(parts: Seq<(u8, Seq<char>)>, i: int, kind: u8) -> bool {
    0 <= i < parts.len() && parts[i].0 == kind && nesting(parts, i as nat) == 0
}

/// Parsing fails at part `i`: the artifact does not parse there, or an export
/// of the outermost component does not.
pub open spec fn fails_at(parts: Seq<(u8, Seq<char>)>, i: int) -> bool {
    0 <= i < parts.len() && parts[i].0 == PART_BROKEN || outermost(parts, i, PART_FAULT)
}

/// Parsing fails somewhere.
pub open spec fn faulted(parts: Seq<(u8, Seq<char>)>) -> bool {
    exists|i: int| #[trigger] fails_at(parts, i)
}

/// This is what the parser says where it first fails.
pub open spec fn first_failure(parts: Seq<(u8, Seq<char>)>, text: Seq<char>) -> bool {
    exists|i: int| #[trigger]
        fails_at(parts, i) && parts[i].1 == text && forall|j: int|
            0 <= j < i ==> !#[trigger] fails_at(parts, j)
}

/// The outermost component exports a function under a name.
pub open spec fn exports(parts: Seq<(u8, Seq<char>)>, name: Seq<char>) -> bool {
    exists|i: int| #[trigger] outermost(parts, i, PART_FUNC) && parts[i].1 == name
}

/// One of the first `n` parts exports a function of the outermost component
/// under a name.
pub open spec fn exported_among(parts: Seq<(u8, Seq<char>)>, n: int, name: Seq<char>) -> bool {
    exists|i: int| 0 <= i < n && #[trigger] outermost(parts, i, PART_FUNC) && parts[i].1 == name
}

/// A list of names holds a name.
pub open spec fn names_hold(names: Seq<String>, name: Seq<char>) -> bool {
    exists|i: int| 0 <= i < names.len() && (#[trigger] names[i])@ == name
}

/// The function exports of the outermost component, by name, or what the parser
/// says where it first fails.
pub fn outermost_funcs(parts: &Vec<(u8, String)>) -> (r: Result<Vec<String>, String>)
    ensures
        match r {
            Ok(names) => {
                &&& !faulted(part_views(parts@))
                &&& forall|name: Seq<char>| #[trigger]
                    names_hold(names@, name) == exports(part_views(parts@), name)
            },
            Err(text) => first_failure(part_views(parts@), text@),
        },
{
    let ghost all = part_views(parts@);
    let mut names: Vec<String> = Vec::new();
    let mut depth: usize = 0;
    let mut i: usize = 0;
    while i < parts.len()
        invariant
            i <= parts@.len(),
            all == part_views(parts@),
            depth == nesting(all, i as nat),
            depth <= i,
            forall|j: int| 0 <= j < i ==> !#[trigger] fails_at(all, j),
            forall|k: int|
                0 <= k < names@.len() ==> exported_among(all, i as int, (#[trigger] names@[k])@),
            forall|j: int|
                0 <= j < i && #[trigger] outermost(all, j, PART_FUNC) ==> names_hold(
                    names@,
                    all[j].1,
                ),
        decreases parts@.len() - i,
    {
        let kind: u8 = parts[i].0;
        assert(all[i as int] == (kind, parts@[i as int].1@));
        let ghost before = names@;
        if kind == PART_BROKEN || kind == PART_FAULT && depth == 0 {
            assert(fails_at(all, i as int));
            return Err(parts[i].1.clone());
        }
        if kind == PART_ENTER {
            depth = depth + 1;
        } else if kind == PART_LEAVE {
            if depth > 0 {
                depth = depth - 1;
            }
        } else if depth == 0 && kind == PART_FUNC {
            names.push(parts[i].1.clone());
            proof {
                assert(outermost(all, i as int, PART_FUNC));
                assert(names@[before.len() as int]@ == all[i as int].1);
            }
        }
        proof {
            assert forall|j: int|
                0 <= j < i + 1 && #[trigger] outermost(all, j, PART_FUNC) implies names_hold(
                names@,
                all[j].1,
            ) by {
                if j < i {
                    let k = choose|k: int|
                        0 <= k < before.len() && (#[trigger] before[k])@ == all[j].1;
                    assert(names@[k]@ == all[j].1);
                } else {
                    assert(names@[before.len() as int]@ == all[j].1);
                }
            }
            assert forall|k: int| 0 <= k < names@.len() implies exported_among(
                all,
                i + 1,
                (#[trigger] names@[k])@,
            ) by {
                if k < before.len() {
                    assert(exported_among(all, i as int, before[k]@));
                } else {
                    assert(outermost(all, i as int, PART_FUNC));
                }
            }
        }
        i = i + 1;
    }
    proof {
        assert forall|name: Seq<char>| #[trigger] names_hold(names@, name) == exports(all, name) by {
            if names_hold(names@, name) {
                let k = choose|k: int| 0 <= k < names@.len() && (#[trigger] names@[k])@ == name;
                assert(exported_among(all, i as int, names@[k]@));
            }
            if exports(all, name) {
                let j = choose|j: int|
                    #[trigger] outermost(all, j, PART_FUNC) && all[j].1 == name;
                assert(names_hold(names@, all[j].1));
            }
        }
    }
    Ok(names)
}

/// The function exports of a component artifact, by name. A nested
/// component's exports are its own.
pub fn component_func_exports(artifact: &[u8]) -> (r: Result<Vec<String>, VmStaticsError>)
    ensures
        match r {
            Ok(names) => {
                &&& !faulted(component_parts(artifact@))
                &&& forall|name: Seq<char>| #[trigger]
                    names_hold(names@, name) == exports(component_parts(artifact@), name)
            },
            Err(e) => e is Unparseable && first_failure(
                component_parts(artifact@),
                e->Unparseable_reason@,
            ),
        },
{
    match outermost_funcs(&parse_component(artifact)) {
        Err(reason) => Err(VmStaticsError::Unparseable { reason }),
        Ok(names) => Ok(names),
    }
}

fn holds_name(names: &Vec<String>, name: &String) -> (r: bool)
    ensures
        r == names_hold(names@, name@),
{
    let mut i: usize = 0;
    while i < names.len()
        invariant
            i <= names@.len(),
            forall|j: int| 0 <= j < i ==> (#[trigger] names@[j])@ != name@,
        decreases names@.len() - i,
    {
        if names[i] == *name {
            assert(names@[i as int]@ == name@);
            return true;
        }
        i = i + 1;
    }
    false
}

/// The first method that no name in `names` backs has this name.
pub open spec fn first_unbacked(
    methods: Seq<MethodEntry>,
    backed: spec_fn(Seq<char>) -> bool,
    name: Seq<char>,
) -> bool {
    exists|i: int|
        #![trigger methods[i]]
        {
            &&& 0 <= i < methods.len()
            &&& methods[i].name@ == name
            &&& !backed(name)
            &&& forall|j: int| 0 <= j < i ==> backed((#[trigger] methods[j]).name@)
        }
}

/// Every method of the metadata is one of the names, or which is the first
/// that is not.
pub fn check_exports(metadata: &PackageMetadata, names: &Vec<String>) -> (r: Result<
    (),
    VmStaticsError,
>)
    ensures
        match r {
            Ok(_) => forall|i: int|
                0 <= i < metadata.methods@.len() ==> names_hold(
                    names@,
                    (#[trigger] metadata.methods@[i]).name@,
                ),
            Err(e) => e is Unexported && first_unbacked(
                metadata.methods@,
                |n: Seq<char>| names_hold(names@, n),
                e->Unexported_method@,
            ),
        },
{
    let mut i: usize = 0;
    while i < metadata.methods.len()
        invariant
            i <= metadata.methods@.len(),
            forall|j: int|
                0 <= j < i ==> names_hold(names@, (#[trigger] metadata.methods@[j]).name@),
        decreases metadata.methods@.len() - i,
    {
        if !holds_name(names, &metadata.methods[i].name) {
            let method = metadata.methods[i].name.clone();
            assert(metadata.methods@[i as int].name@ == method@);
            return Err(VmStaticsError::Unexported { method });
        }
        i = i + 1;
    }
    Ok(())
}

/// The artifact declares this metadata and exports every method of it.
pub open spec fn backs(artifact: Seq<u8>, m: PackageMetadata, lim: MetadataLimits) -> bool {
    &&& declared(artifact) is Ok
    &&& declared(artifact)->Ok_0 is Some
    &&& section_of(span(artifact, declared(artifact)->Ok_0->0), m, lim)
    &&& !faulted(component_parts(artifact))
    &&& forall|i: int|
        0 <= i < m.methods@.len() ==> exports(
            component_parts(artifact),
            (#[trigger] m.methods@[i]).name@,
        )
}

/// A publish of the artifact is admitted.
pub open spec fn package_admits(artifact: Seq<u8>, lim: MetadataLimits) -> bool {
    exists|m: PackageMetadata| #[trigger] backs(artifact, m, lim)
}

/// The error names the first reason why a publish of the artifact is refused.
pub open spec fn package_refused_as(
    artifact: Seq<u8>,
    lim: MetadataLimits,
    e: VmStaticsError,
) -> bool {
    match declared(artifact) {
        Err(f) => e == VmStaticsError::Framing(f),
        Ok(None) => e is Undeclared,
        Ok(Some(at)) => {
            let section = span(artifact, at);
            if forall|x: PackageMetadata| !#[trigger] section_of(section, x, lim) {
                section_refused_as(section, lim, e)
            } else {
                let parts = component_parts(artifact);
                if faulted(parts) {
                    e is Unparseable && first_failure(parts, e->Unparseable_reason@)
                } else {
                    e is Unexported && exists|m: PackageMetadata| #[trigger]
                        section_of(section, m, lim) && first_unbacked(
                            m.methods@,
                            |n: Seq<char>| exports(parts, n),
                            e->Unexported_method@,
                        )
                }
            }
        },
    }
}

/// The metadata that a publish admits from an artifact, or the first reason
/// why it does not: the artifact declares metadata, the section is canonical
/// and within bounds, and every method it describes is exported.
pub fn admit_package(artifact: &[u8], lim: &MetadataLimits) -> (r: Result<
    PackageMetadata,
    VmStaticsError,
>)
    requires
        lim.wf(),
    ensures
        match r {
            Ok(m) => backs(artifact@, m, *lim),
            Err(e) => package_refused_as(artifact@, *lim, e) && !package_admits(artifact@, *lim),
        },
{
    let metadata = match extract_metadata(artifact, lim) {
        Err(e) => {
            return Err(e);
        },
        Ok(None) => {
            return Err(VmStaticsError::Undeclared);
        },
        Ok(Some(metadata)) => metadata,
    };
    let ghost section = span(artifact@, declared(artifact@)->Ok_0->0);
    assert(section_of(section, metadata, *lim));
    let names = match component_func_exports(artifact) {
        Err(e) => {
            return Err(e);
        },
        Ok(names) => names,
    };
    let ghost parts = component_parts(artifact@);
    match check_exports(&metadata, &names) {
        Err(e) => {
            proof {
                let name = e->Unexported_method@;
                let ms = metadata.methods@;
                let i = choose|i: int|
                    #![trigger ms[i]]
                    {
                        &&& 0 <= i < ms.len()
                        &&& ms[i].name@ == name
                        &&& !names_hold(names@, name)
                        &&& forall|j: int|
                            0 <= j < i ==> names_hold(names@, (#[trigger] ms[j]).name@)
                    };
                assert(ms[i].name@ == name);
                assert forall|j: int| 0 <= j < i implies exports(
                    parts,
                    (#[trigger] ms[j]).name@,
                ) by {
                    assert(names_hold(names@, ms[j].name@));
                }
                assert(first_unbacked(ms, |n: Seq<char>| exports(parts, n), name));
                assert forall|m: PackageMetadata| !#[trigger] backs(artifact@, m, *lim) by {
                    if backs(artifact@, m, *lim) {
                        assert(section_of(section, m, *lim));
                        lemma_same_names(metadata, m, *lim);
                        assert(m.methods@[i].name@ == name);
                        assert(!names_hold(names@, name));
                    }
                }
            }
            Err(e)
        },
        Ok(_) => {
            proof {
                assert forall|i: int| 0 <= i < metadata.methods@.len() implies exports(
                    parts,
                    (#[trigger] metadata.methods@[i]).name@,
                ) by {
                    assert(names_hold(names@, metadata.methods@[i].name@));
                }
            }
            Ok(metadata)
        },
    }
}

/// How many of the first `n` parts are of a kind.
pub open spec fn parts_of(parts: Seq<(u8, Seq<char>)>, n: int, kind: u8) -> nat {
    parts.take(n).filter(|p: (u8, Seq<char>)| p.0 == kind).len()
}

/// Nesting is what was entered and not yet left: as long as no part leaves more
/// than was entered, it is the count of the one less the count of the other.
pub proof fn law_nesting_counts_what_is_open(parts: Seq<(u8, Seq<char>)>, n: nat)
    requires
        n <= parts.len(),
        forall|k: int| 0 <= k <= n ==> #[trigger] parts_of(parts, k, 1) <= parts_of(parts, k, 0),
    ensures
        nesting(parts, n) == parts_of(parts, n as int, 0) - parts_of(parts, n as int, 1),
    decreases n,
{
    reveal(Seq::filter);
    let t = parts.take(n as int);
    if n > 0 {
        law_nesting_counts_what_is_open(parts, (n - 1) as nat);
        assert(t.drop_last() =~= parts.take(n - 1));
        assert(t.last() == parts[n - 1]);
        assert(parts_of(parts, n as int, 1) <= parts_of(parts, n as int, 0));
        assert(parts_of(parts, n - 1, 1) <= parts_of(parts, n - 1, 0));
    } else {
        assert(t =~= Seq::empty());
    }
}

/// An admitted package backs every method that it declares: its artifact parses,
/// declares the metadata within its bounds, and exports a function under each
/// declared name at its top, where nothing entered is still open.
pub proof fn law_an_admitted_package_exports_what_it_declares(
    artifact: Seq<u8>,
    m: PackageMetadata,
    lim: MetadataLimits,
    i: int,
)
    requires
        backs(artifact, m, lim),
        0 <= i < m.methods@.len(),
    ensures
        m.wf() && m.bounded(lim),
        exists|k: int|
            #![trigger component_parts(artifact)[k]]
            0 <= k < component_parts(artifact).len() && component_parts(artifact)[k].0 == 2
                && component_parts(artifact)[k].1 == m.methods@[i].name@ && nesting(
                component_parts(artifact),
                k as nat,
            ) == 0,
        forall|k: int|
            0 <= k < component_parts(artifact).len() ==> (#[trigger] component_parts(artifact)[k]).0
                != 5,
{
    let parts = component_parts(artifact);
    assert(exports(parts, m.methods@[i].name@));
    let k = choose|k: int| #[trigger]
        outermost(parts, k, PART_FUNC) && parts[k].1 == m.methods@[i].name@;
    assert(parts[k].0 == 2);
    assert forall|k: int| 0 <= k < parts.len() implies (#[trigger] parts[k]).0 != 5 by {
        assert(!fails_at(parts, k));
    }
}

/// Why a publish is refused, in the order of the questions: the artifact is not
/// framed, declares no section, holds one that does not read, does not parse, or
/// leaves a declared method unexported. What the parser says is what it says of
/// the first part that fails, and the method named is the first that nothing at
/// the artifact's top exports.
pub proof fn law_a_publish_is_refused_for_the_first_reason(
    artifact: Seq<u8>,
    lim: MetadataLimits,
    e: VmStaticsError,
)
    requires
        package_refused_as(artifact, lim, e),
    ensures
        e is Framing <==> declared(artifact) is Err,
        e is Framing ==> Err::<Option<(int, int)>, FramingFault>(e->Framing_0) == declared(artifact),
        e is Undeclared <==> declared(artifact) is Ok && declared(artifact)->Ok_0 is None,
        e is Unparseable ==> exists|i: int|
            #![trigger component_parts(artifact)[i]]
            0 <= i < component_parts(artifact).len() && component_parts(artifact)[i].1
                == e->Unparseable_reason@ && (component_parts(artifact)[i].0 == 5 || (
            component_parts(artifact)[i].0 == 4 && nesting(component_parts(artifact), i as nat)
                == 0)),
        e is Unexported ==> exists|m: PackageMetadata, i: int|
            #![trigger m.methods@[i]]
            section_of(
                artifact.subrange(
                    (declared(artifact)->Ok_0->0).0,
                    (declared(artifact)->Ok_0->0).1,
                ),
                m,
                lim,
            ) && 0 <= i < m.methods@.len() && m.methods@[i].name@ == e->Unexported_method@ && (
            forall|k: int|
                #![trigger component_parts(artifact)[k]]
                0 <= k < component_parts(artifact).len() && component_parts(artifact)[k].0 == 2
                    && nesting(component_parts(artifact), k as nat) == 0
                    ==> component_parts(artifact)[k].1 != e->Unexported_method@),
{
    let parts = component_parts(artifact);
    if e is Unparseable && declared(artifact) is Ok && declared(artifact)->Ok_0 is Some {
        let text = e->Unparseable_reason@;
        let section = span(artifact, declared(artifact)->Ok_0->0);
        if forall|x: PackageMetadata| !#[trigger] section_of(section, x, lim) {
            law_a_section_is_refused_for_the_first_reason(section, lim, e);
        } else {
            let i = choose|i: int| #[trigger]
                fails_at(parts, i) && parts[i].1 == text && forall|j: int|
                    0 <= j < i ==> !#[trigger] fails_at(parts, j);
            assert(parts[i].1 == text);
        }
    }
    if e is Unexported && declared(artifact) is Ok && declared(artifact)->Ok_0 is Some {
        let section = span(artifact, declared(artifact)->Ok_0->0);
        let name = e->Unexported_method@;
        if forall|x: PackageMetadata| !#[trigger] section_of(section, x, lim) {
            law_a_section_is_refused_for_the_first_reason(section, lim, e);
        } else {
            let m = choose|m: PackageMetadata| #[trigger]
                section_of(section, m, lim) && first_unbacked(
                    m.methods@,
                    |n: Seq<char>| exports(parts, n),
                    name,
                );
            let methods = m.methods@;
            let i = choose|i: int|
                #![trigger methods[i]]
                {
                    &&& 0 <= i < methods.len()
                    &&& methods[i].name@ == name
                    &&& !exports(parts, name)
                    &&& forall|j: int|
                        0 <= j < i ==> exports(parts, (#[trigger] methods[j]).name@)
                };
            assert(m.methods@[i].name@ == name);
            assert forall|k: int|
                #![trigger parts[k]]
                0 <= k < parts.len() && parts[k].0 == 2 && nesting(parts, k as nat) == 0 implies
                parts[k].1 != name by {
                if parts[k].1 == name {
                    assert(outermost(parts, k, PART_FUNC));
                }
            }
        }
    }
    if e is Framing || e is Undeclared {
        if declared(artifact) is Ok && declared(artifact)->Ok_0 is Some {
            let section = span(artifact, declared(artifact)->Ok_0->0);
            if forall|x: PackageMetadata| !#[trigger] section_of(section, x, lim) {
                law_a_section_is_refused_for_the_first_reason(section, lim, e);
            }
        }
    }
}

/// A list of names holds a name exactly where some entry reads as it, and parts
/// read as their kinds and names, in order.
pub proof fn law_names_and_parts_read_as_they_stand(
    names: Seq<String>,
    parts: Seq<(u8, String)>,
    i: int,
    k: int,
)
    requires
        0 <= i < names.len(),
        0 <= k < parts.len(),
    ensures
        names_hold(names, names[i]@),
        forall|name: Seq<char>|
            (forall|j: int| 0 <= j < names.len() ==> (#[trigger] names[j])@ != name)
                ==> !#[trigger] names_hold(names, name),
        part_views(parts).len() == parts.len(),
        part_views(parts)[k].0 == parts[k].0,
        part_views(parts)[k].1 == parts[k].1@,
{
}

} // verus!
