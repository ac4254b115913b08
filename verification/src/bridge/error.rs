//! Why the static derivation refuses an artifact or an envelope.
use vstd::prelude::*;

use crate::bridge::checks::MetadataLimits;
use crate::text::{counted, decimal, join, named, quoted};

verus! {

/// A bound of the vocabulary that a signature is past.
#[derive(Clone, Copy, Debug, PartialEq, Eq, Structural)]
pub enum SignatureFault {
    /// An expression nests too deep.
    ExprDepth,
    /// A literal nests too deep.
    LiteralDepth,
    /// For-each clauses nest too deep.
    ClauseDepth,
    /// More effects are declared than a signature may.
    Effects,
}

/// Why an artifact's section framing is refused.
#[derive(Clone, Copy, Debug, PartialEq, Eq, Structural)]
pub enum FramingFault {
    /// The artifact does not open with the wasm preamble.
    Preamble,
    /// A section length is cut off.
    LengthTruncated,
    /// A section length is not a 32-bit value.
    LengthRange,
    /// A section runs past the artifact.
    SectionOverrun,
    /// A custom section's name runs past its section.
    NameOverrun,
    /// The effect metadata section occurs twice.
    Duplicate,
}

/// Why static derivation refuses.
#[derive(Debug, PartialEq, Eq)]
pub enum VmStaticsError {
    /// The artifact's section framing is malformed.
    Framing(FramingFault),
    /// The artifact already declares an effect metadata section.
    AlreadyDeclared,
    /// The artifact declares no effect metadata section.
    Undeclared,
    /// The artifact is no component that parses.
    Unparseable {
        /// What the parser says.
        reason: String,
    },
    /// A declared method is not exported by the component.
    Unexported {
        /// The method.
        method: String,
    },
    /// The metadata does not encode.
    MetadataEncode {
        /// What the encoder says.
        reason: String,
    },
    /// The metadata does not decode.
    MetadataMalformed {
        /// What the decoder says.
        reason: String,
    },
    /// The metadata encodes past the byte cap.
    MetadataOversized {
        /// How many bytes it has.
        bytes: usize,
    },
    /// A metadata section is past the byte cap.
    SectionOversized {
        /// How many bytes it has.
        bytes: usize,
    },
    /// The method table is not in ascending name order.
    MethodOrder {
        /// The first method out of order.
        method: String,
    },
    /// The event table is longer than an event index can reach.
    EventTable {
        /// How many types it names.
        types: usize,
    },
    /// A method's signature is past a bound.
    Method {
        /// The method.
        method: String,
        /// The bound.
        fault: SignatureFault,
    },
    /// The envelope tree does not decode.
    TreeMalformed {
        /// What the decoder says.
        reason: String,
    },
    /// The fee payer is not the composer's own account.
    FeePayer,
    /// A publish carries subintents or snapshot pins.
    PublishExtras,
    /// The envelope binds a different number of subintents than it carries
    /// signatures.
    SubintentCount {
        /// Subintents in the tree.
        bound: usize,
        /// Signatures carried.
        carried: usize,
    },
    /// A subintent's signer address does not match its public key.
    SubintentSigner {
        /// Which subintent.
        index: usize,
    },
    /// Admission refused the tree.
    Admission {
        /// Why.
        reason: String,
    },
    /// Routing refused the tree.
    Routing {
        /// Why.
        reason: String,
    },
    /// A snapshot obligation names a collection.
    CollectionSnapshot,
}

/// The empty text adds nothing, in front or behind.
proof fn lemma_empty_adds_nothing()
    ensures
        forall|t: Seq<char>| #[trigger] (""@ + t) == t,
        forall|t: Seq<char>| #[trigger] (t + ""@) == t,
{
    reveal_strlit("");
    assert forall|t: Seq<char>| #[trigger] (""@ + t) == t by {
        assert(""@ + t =~= t);
    }
    assert forall|t: Seq<char>| #[trigger] (t + ""@) == t by {
        assert(t + ""@ =~= t);
    }
}

impl FramingFault {
    /// What the fault says.
    pub open spec fn says(self) -> Seq<char> {
        match self {
            FramingFault::Preamble => "artifact does not open with the wasm preamble"@,
            FramingFault::LengthTruncated => "section length is truncated"@,
            FramingFault::LengthRange => "section length is not a 32-bit value"@,
            FramingFault::SectionOverrun => "section runs past the artifact"@,
            FramingFault::NameOverrun => "custom section name runs past its section"@,
            FramingFault::Duplicate => "artifact declares the effect metadata section twice"@,
        }
    }

    /// What the fault says.
    pub fn text(&self) -> (t: &'static str)
        ensures
            t@ == self.says(),
    {
        match self {
            FramingFault::Preamble => "artifact does not open with the wasm preamble",
            FramingFault::LengthTruncated => "section length is truncated",
            FramingFault::LengthRange => "section length is not a 32-bit value",
            FramingFault::SectionOverrun => "section runs past the artifact",
            FramingFault::NameOverrun => "custom section name runs past its section",
            FramingFault::Duplicate => "artifact declares the effect metadata section twice",
        }
    }
}

impl SignatureFault {
    /// What the fault says, under the limits that it is past.
    pub open spec fn says(self, lim: MetadataLimits) -> Seq<char> {
        match self {
            SignatureFault::ExprDepth => "expression nests deeper than "@ + decimal(lim.max_expr_depth as nat),
            SignatureFault::LiteralDepth => "literal nests deeper than "@ + decimal(lim.max_value_depth as nat),
            SignatureFault::ClauseDepth => "for-each clauses nest deeper than "@ + decimal(lim.max_clause_depth as nat),
            SignatureFault::Effects => "signature declares more than "@ + decimal(lim.max_effects as nat) + " effects"@,
        }
    }

    /// What the fault says, under the limits that it is past.
    pub fn text(&self, lim: &MetadataLimits) -> (t: String)
        ensures
            t@ == self.says(*lim),
    {
        proof {
            lemma_empty_adds_nothing();
        }
        match self {
            SignatureFault::ExprDepth => counted("expression nests deeper than ", lim.max_expr_depth, ""),
            SignatureFault::LiteralDepth => counted("literal nests deeper than ", lim.max_value_depth, ""),
            SignatureFault::ClauseDepth => counted("for-each clauses nest deeper than ", lim.max_clause_depth, ""),
            SignatureFault::Effects => counted("signature declares more than ", lim.max_effects, " effects"),
        }
    }
}

impl VmStaticsError {
    /// What the refusal says, under the limits that packages are held to.
    pub open spec fn says(self, lim: MetadataLimits) -> Seq<char> {
        match self {
            VmStaticsError::Framing(fault) => fault.says(),
            VmStaticsError::AlreadyDeclared => "artifact already declares an effect metadata section"@,
            VmStaticsError::Undeclared => "artifact declares no effect metadata section"@,
            VmStaticsError::FeePayer => "fee payer is not the composer's own account"@,
            VmStaticsError::PublishExtras => "a publish carries no subintents and no snapshot pins"@,
            VmStaticsError::CollectionSnapshot => "collection snapshot obligations are unsupported"@,
            VmStaticsError::Unparseable { reason } => "artifact does not parse: "@ + reason@,
            VmStaticsError::MetadataEncode { reason } => "metadata encode: "@ + reason@,
            VmStaticsError::MetadataMalformed { reason } => "metadata decode: "@ + reason@,
            VmStaticsError::TreeMalformed { reason } => "tree decode: "@ + reason@,
            VmStaticsError::Admission { reason } => "admission: "@ + reason@,
            VmStaticsError::Routing { reason } => "routing: "@ + reason@,
            VmStaticsError::Unexported { method } => "metadata declares method "@ + quoted(method@)
                + ", which the component does not export"@,
            VmStaticsError::MetadataOversized { bytes } => "metadata encodes to "@ + decimal(
                bytes as nat,
            ) + " bytes, past the "@ + (decimal(lim.max_bytes as nat) + " cap"@),
            VmStaticsError::SectionOversized { bytes } => "metadata section is "@ + decimal(
                bytes as nat,
            ) + " bytes, past the "@ + (decimal(lim.max_bytes as nat) + " cap"@),
            VmStaticsError::MethodOrder { method } =>
                "method table is not in ascending name order at "@ + quoted(method@),
            VmStaticsError::EventTable { types } => "event table names "@ + decimal(types as nat)
                + " types, past the "@ + (decimal(lim.max_event_types as nat)
                + " an event index can reach"@),
            VmStaticsError::Method { method, fault } => "method "@ + quoted(method@) + ": "@
                + fault.says(lim),
            VmStaticsError::SubintentCount { bound, carried } => "envelope binds "@ + decimal(
                bound as nat,
            ) + " subintents but carries "@ + (decimal(carried as nat) + " signatures"@),
            VmStaticsError::SubintentSigner { index } => "subintent "@ + decimal(index as nat)
                + " signer address does not match its public key"@,
        }
    }

    /// What the refusal says, under the limits that packages are held to.
    pub fn text(&self, lim: &MetadataLimits) -> (t: String)
        ensures
            t@ == self.says(*lim),
    {
        proof {
            lemma_empty_adds_nothing();
        }
        match self {
            VmStaticsError::Framing(fault) => fault.text().to_string(),
            VmStaticsError::AlreadyDeclared => "artifact already declares an effect metadata section".to_string(),
            VmStaticsError::Undeclared => "artifact declares no effect metadata section".to_string(),
            VmStaticsError::FeePayer => "fee payer is not the composer's own account".to_string(),
            VmStaticsError::PublishExtras => "a publish carries no subintents and no snapshot pins".to_string(),
            VmStaticsError::CollectionSnapshot => "collection snapshot obligations are unsupported".to_string(),
            VmStaticsError::Unparseable { reason } => join("artifact does not parse: ", reason.as_str()),
            VmStaticsError::MetadataEncode { reason } => join("metadata encode: ", reason.as_str()),
            VmStaticsError::MetadataMalformed { reason } => join("metadata decode: ", reason.as_str()),
            VmStaticsError::TreeMalformed { reason } => join("tree decode: ", reason.as_str()),
            VmStaticsError::Admission { reason } => join("admission: ", reason.as_str()),
            VmStaticsError::Routing { reason } => join("routing: ", reason.as_str()),
            VmStaticsError::Unexported { method } => named(
                "metadata declares method ",
                method.as_str(),
                ", which the component does not export",
            ),
            VmStaticsError::MetadataOversized { bytes } => join(
                counted("metadata encodes to ", *bytes, " bytes, past the ").as_str(),
                counted("", lim.max_bytes, " cap").as_str(),
            ),
            VmStaticsError::SectionOversized { bytes } => join(
                counted("metadata section is ", *bytes, " bytes, past the ").as_str(),
                counted("", lim.max_bytes, " cap").as_str(),
            ),
            VmStaticsError::MethodOrder { method } => named(
                "method table is not in ascending name order at ",
                method.as_str(),
                "",
            ),
            VmStaticsError::EventTable { types } => join(
                counted("event table names ", *types, " types, past the ").as_str(),
                counted("", lim.max_event_types, " an event index can reach").as_str(),
            ),
            VmStaticsError::Method { method, fault } => join(
                named("method ", method.as_str(), ": ").as_str(),
                fault.text(lim).as_str(),
            ),
            VmStaticsError::SubintentCount { bound, carried } => join(
                counted("envelope binds ", *bound, " subintents but carries ").as_str(),
                counted("", *carried, " signatures").as_str(),
            ),
            VmStaticsError::SubintentSigner { index } => counted(
                "subintent ",
                *index,
                " signer address does not match its public key",
            ),
        }
    }
}

} // verus!
