//! Data model of the filtering core: compiled patterns, rule masks,
//! filter rules, request descriptors and classification verdicts,
//! together with their mathematical views.

use vstd::prelude::*;

verus! {

/// One token of a compiled pattern segment: a literal byte, or the
/// separator placeholder `^` of the filter dialect.
#[derive(Clone, Copy, PartialEq, Eq, Structural)]
pub enum PatTok {
    Byte(u8),
    Sep,
}

/// The resource category of a request, used by type-restricted rules.
#[derive(Clone, Copy, PartialEq, Eq, Structural, Debug)]
pub enum ResourceType {
    Document,
    Script,
    Image,
    Stylesheet,
    Xhr,
    Other,
}

/// Resource-type bits of a rule mask. No bit set means "any type".
#[derive(Clone, Copy, PartialEq, Eq, Structural, Debug)]
pub struct TypeMask {
    pub document: bool,
    pub script: bool,
    pub image: bool,
    pub stylesheet: bool,
    pub xhr: bool,
    pub other: bool,
}

/// Party restriction of a rule: any request, third-party requests
/// only, or first-party requests only.
#[derive(Clone, Copy, PartialEq, Eq, Structural, Debug)]
pub enum PartyFilter {
    Any,
    ThirdOnly,
    FirstOnly,
}

/// The modifier bits of a compiled rule.
#[derive(Clone, Copy, PartialEq, Eq, Structural, Debug)]
pub struct RuleMask {
    pub exception: bool,
    pub important: bool,
    pub match_case: bool,
    pub party: PartyFilter,
    pub types: TypeMask,
}

/// A compiled URL pattern: optional host/left/right anchors and the
/// literal segments between `*` wildcards.
pub struct Pattern {
    pub host_anchor: bool,
    pub anchor_start: bool,
    pub anchor_end: bool,
    pub segments: Vec<Vec<PatTok>>,
}

/// Mathematical view of a [`Pattern`].
pub struct PatternG {
    pub host_anchor: bool,
    pub anchor_start: bool,
    pub anchor_end: bool,
    pub segments: Seq<Seq<PatTok>>,
}

/// The views of a sequence of pattern segments.
pub open spec fn seg_views(segs: Seq<Vec<PatTok>>) -> Seq<Seq<PatTok>> {
    segs.map_values(|s: Vec<PatTok>| s@)
}

impl View for Pattern {
    type V = PatternG;

    open spec fn view(&self) -> PatternG {
        PatternG {
            host_anchor: self.host_anchor,
            anchor_start: self.anchor_start,
            anchor_end: self.anchor_end,
            segments: seg_views(self.segments@),
        }
    }
}

/// The view of an optional byte string.
pub open spec fn opt_bytes_view(o: Option<Vec<u8>>) -> Option<Seq<u8>> {
    match o {
        Option::None => Option::None,
        Option::Some(v) => Option::Some(v@),
    }
}

/// One compiled network-filter entry.
pub struct FilterRule {
    pub pattern: Pattern,
    pub mask: RuleMask,
    /// Hashed identifiers of initiator domains the rule is limited to;
    /// empty means no inclusion constraint.
    pub included_domains: Vec<u64>,
    /// Hashed identifiers of initiator domains the rule never applies to.
    pub excluded_domains: Vec<u64>,
    pub redirect_resource: Option<Vec<u8>>,
    pub content_security_policy: Option<Vec<u8>>,
    /// The original line, retained for diagnostics only.
    pub source_text: Vec<u8>,
    /// Total literal length of the pattern, the specificity tie-break.
    pub specificity: usize,
    /// Stable hash of the defining fields, used for dedup and as the
    /// final tie-break.
    pub id: u64,
}

/// Mathematical view of a [`FilterRule`].
pub struct RuleG {
    pub pattern: PatternG,
    pub mask: RuleMask,
    pub included_domains: Seq<u64>,
    pub excluded_domains: Seq<u64>,
    pub redirect_resource: Option<Seq<u8>>,
    pub content_security_policy: Option<Seq<u8>>,
    pub source_text: Seq<u8>,
    pub specificity: usize,
    pub id: u64,
}

impl View for FilterRule {
    type V = RuleG;

    open spec fn view(&self) -> RuleG {
        RuleG {
            pattern: self.pattern@,
            mask: self.mask,
            included_domains: self.included_domains@,
            excluded_domains: self.excluded_domains@,
            redirect_resource: opt_bytes_view(self.redirect_resource),
            content_security_policy: opt_bytes_view(self.content_security_policy),
            source_text: self.source_text@,
            specificity: self.specificity,
            id: self.id,
        }
    }
}

/// The views of a sequence of rules.
pub open spec fn rule_views(rules: Seq<FilterRule>) -> Seq<RuleG> {
    rules.map_values(|r: FilterRule| r@)
}

/// Classifier input: one outgoing request.
pub struct RequestDescriptor {
    /// The absolute URL being requested.
    pub url: Vec<u8>,
    /// Domain of the document that triggered the request; empty for a
    /// top-level navigation.
    pub initiator_domain: Vec<u8>,
    /// The request method.
    pub method: Vec<u8>,
    pub resource_type: ResourceType,
}

/// Mathematical view of a [`RequestDescriptor`].
pub struct RequestG {
    pub url: Seq<u8>,
    pub initiator_domain: Seq<u8>,
    pub method: Seq<u8>,
    pub resource_type: ResourceType,
}

impl View for RequestDescriptor {
    type V = RequestG;

    open spec fn view(&self) -> RequestG {
        RequestG {
            url: self.url@,
            initiator_domain: self.initiator_domain@,
            method: self.method@,
            resource_type: self.resource_type,
        }
    }
}

/// Classifier output. `Allow` is the default when no rule matches;
/// `InjectCsp` allows the request but injects the given policy.
pub enum Verdict {
    Allow,
    Block,
    Redirect(Vec<u8>),
    InjectCsp(Vec<u8>),
}

/// Mathematical view of a [`Verdict`].
pub enum VerdictG {
    Allow,
    Block,
    Redirect(Seq<u8>),
    InjectCsp(Seq<u8>),
}

impl View for Verdict {
    type V = VerdictG;

    open spec fn view(&self) -> VerdictG {
        match self {
            Verdict::Allow => VerdictG::Allow,
            Verdict::Block => VerdictG::Block,
            Verdict::Redirect(r) => VerdictG::Redirect(r@),
            Verdict::InjectCsp(p) => VerdictG::InjectCsp(p@),
        }
    }
}

/// Why a rule line was rejected by the compiler.
#[derive(Clone, Copy, PartialEq, Eq, Structural, Debug)]
pub enum ParseReason {
    /// An option token that the dialect does not recognize.
    UnknownOption,
    /// An empty option token (two commas in a row, or a trailing comma).
    EmptyOption,
    /// A `domain=`, `csp=` or `redirect=` option without a value.
    EmptyOptionValue,
    /// An empty entry in a `domain=` list.
    EmptyDomainEntry,
}

/// A malformed rule line: the index of the offending line, the reason,
/// and the offending option token.
pub struct ParseError {
    pub line: usize,
    pub reason: ParseReason,
    pub token: Vec<u8>,
}

/// A structurally malformed request descriptor (empty URL). The caller
/// is expected to fail open and treat the request as allowed.
#[derive(Clone, Copy, PartialEq, Eq, Structural, Debug)]
pub struct InvalidRequestError;

} // verus!
