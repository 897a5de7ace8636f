//! The rule compiler's front end: parsing one raw filter-rule line
//! into a compiled [`FilterRule`], or recognizing it as a non-network
//! line to skip, or rejecting it with a reason.
//!
//! The accepted dialect: an optional `@@` exception prefix, a URL
//! pattern (`||` host anchor, `|` start/end anchors, `*` wildcards,
//! `^` separator placeholder), and `$`-delimited options
//! (`third-party`, `~third-party`, `first-party`, `match-case`,
//! `important`, resource types, `domain=`, `csp=`, `redirect=`).
//! Comment lines (`!`) and cosmetic rules (`##`) are skipped; an
//! unrecognized option is a hard parse failure for the line.

use vstd::prelude::*;
use crate::bytes::{
    bytes_eq,
    copy_bytes,
    fnv64,
    fnv64_bytes,
    lower_byte,
    lower_bytes,
    sub_bytes,
    to_lower_bytes,
};
use crate::rules::{
    FilterRule,
    ParseReason,
    PartyFilter,
    PatTok,
    Pattern,
    PatternG,
    RuleG,
    RuleMask,
    TypeMask,
    opt_bytes_view,
    seg_views,
};

verus! {

/// Whitespace stripped from both ends of a rule line.
#[verifier::allow_in_spec]
pub fn is_ws(c: u8) -> bool
    returns (c == 32 || c == 9 || c == 13 || c == 10),
{
    c == 32 || c == 9 || c == 13 || c == 10
}

/// First non-whitespace position at or after `i`.
pub open spec fn first_non_ws(s: Seq<u8>, i: int) -> int
    decreases s.len() - i,
    when 0 <= i <= s.len()
{
    if i >= s.len() {
        i
    } else if is_ws(s[i]) {
        first_non_ws(s, i + 1)
    } else {
        i
    }
}

pub proof fn lemma_first_non_ws_bounds(s: Seq<u8>, i: int)
    requires
        0 <= i <= s.len(),
    ensures
        i <= first_non_ws(s, i) <= s.len(),
    decreases s.len() - i,
{
    if i >= s.len() {
    } else if is_ws(s[i]) {
        lemma_first_non_ws_bounds(s, i + 1);
    }
}

/// One past the last non-whitespace position strictly before `i`.
pub open spec fn last_non_ws(s: Seq<u8>, i: int) -> int
    decreases i,
    when 0 <= i <= s.len()
{
    if i <= 0 {
        0
    } else if is_ws(s[i - 1]) {
        last_non_ws(s, i - 1)
    } else {
        i
    }
}

pub proof fn lemma_last_non_ws_bounds(s: Seq<u8>, i: int)
    requires
        0 <= i <= s.len(),
    ensures
        0 <= last_non_ws(s, i) <= i,
    decreases i,
{
    if i <= 0 {
    } else if is_ws(s[i - 1]) {
        lemma_last_non_ws_bounds(s, i - 1);
    }
}

/// The line with leading and trailing whitespace removed.
pub open spec fn trim(s: Seq<u8>) -> Seq<u8> {
    let a = first_non_ws(s, 0);
    let b = last_non_ws(s, s.len() as int);
    if a <= b {
        s.subrange(a, b)
    } else {
        Seq::empty()
    }
}

/// Executable trim; returns a fresh trimmed copy.
#[verifier::loop_isolation(false)]
pub fn trim_x(s: &Vec<u8>) -> (r: Vec<u8>)
    ensures
        r@ == trim(s@),
{
    let mut a: usize = 0;
    while a < s.len() && is_ws(s[a])
        invariant
            0 <= a <= s@.len(),
            first_non_ws(s@, 0) == first_non_ws(s@, a as int),
        decreases s@.len() - a,
    {
        a = a + 1;
    }
    let mut b: usize = s.len();
    while b > 0 && is_ws(s[b - 1])
        invariant
            0 <= b <= s@.len(),
            last_non_ws(s@, s@.len() as int) == last_non_ws(s@, b as int),
        decreases b,
    {
        b = b - 1;
    }
    if a <= b {
        sub_bytes(s, a, b)
    } else {
        Vec::new()
    }
}

/// Whether the line holds a cosmetic-rule marker `##` at or after `i`.
pub open spec fn has_cosmetic_marker(s: Seq<u8>, i: int) -> bool
    decreases s.len() - i,
    when 0 <= i <= s.len()
{
    if i + 2 > s.len() {
        false
    } else if s[i] == 35 && s[i + 1] == 35 {
        true
    } else {
        has_cosmetic_marker(s, i + 1)
    }
}

#[verifier::loop_isolation(false)]
pub fn has_cosmetic_marker_x(s: &Vec<u8>) -> (r: bool)
    ensures
        r == has_cosmetic_marker(s@, 0),
{
    let mut i: usize = 0;
    while i < s.len() && s.len() - i >= 2
        invariant
            0 <= i <= s@.len(),
            has_cosmetic_marker(s@, 0) == has_cosmetic_marker(s@, i as int),
        decreases s@.len() - i,
    {
        if s[i] == 35 && s[i + 1] == 35 {
            return true;
        }
        i = i + 1;
    }
    false
}

/// First position of byte `c` at or after `i`, or the length.
pub open spec fn find_from(s: Seq<u8>, c: u8, i: int) -> int
    decreases s.len() - i,
    when 0 <= i <= s.len()
{
    if i >= s.len() {
        i
    } else if s[i] == c {
        i
    } else {
        find_from(s, c, i + 1)
    }
}

pub proof fn lemma_find_from_bounds(s: Seq<u8>, c: u8, i: int)
    requires
        0 <= i <= s.len(),
    ensures
        i <= find_from(s, c, i) <= s.len(),
    decreases s.len() - i,
{
    if i >= s.len() {
    } else if s[i] == c {
    } else {
        lemma_find_from_bounds(s, c, i + 1);
    }
}

#[verifier::loop_isolation(false)]
pub fn find_from_x(s: &Vec<u8>, c: u8, from: usize) -> (r: usize)
    requires
        from <= s@.len(),
    ensures
        r as int == find_from(s@, c, from as int),
        from <= r <= s@.len(),
{
    let mut i: usize = from;
    while i < s.len()
        invariant
            from <= i <= s@.len(),
            find_from(s@, c, from as int) == find_from(s@, c, i as int),
        decreases s@.len() - i,
    {
        if s[i] == c {
            return i;
        }
        i = i + 1;
    }
    i
}

/// Last position of byte `c` strictly before `i`, if any.
pub open spec fn find_last(s: Seq<u8>, c: u8, i: int) -> Option<int>
    decreases i,
    when 0 <= i <= s.len()
{
    if i <= 0 {
        Option::None
    } else if s[i - 1] == c {
        Option::Some(i - 1)
    } else {
        find_last(s, c, i - 1)
    }
}

pub proof fn lemma_find_last_bounds(s: Seq<u8>, c: u8, i: int, r: int)
    requires
        0 <= i <= s.len(),
        find_last(s, c, i) == Option::Some(r),
    ensures
        0 <= r < i,
    decreases i,
{
    if i <= 0 {
    } else if s[i - 1] == c {
    } else {
        lemma_find_last_bounds(s, c, i - 1, r);
    }
}

#[verifier::loop_isolation(false)]
pub fn find_last_x(s: &Vec<u8>) -> (r: Option<usize>)
    ensures
        match r {
            Option::Some(d) => find_last(s@, 36, s@.len() as int) == Option::Some(d as int) && d
                < s@.len(),
            Option::None => find_last(s@, 36, s@.len() as int) is None,
        },
{
    let mut i: usize = s.len();
    while i > 0
        invariant
            0 <= i <= s@.len(),
            find_last(s@, 36, s@.len() as int) == find_last(s@, 36, i as int),
        decreases i,
    {
        if s[i - 1] == 36 {
            return Option::Some(i - 1);
        }
        i = i - 1;
    }
    Option::None
}

/// `third-party`
pub open spec fn kw_third_party() -> Seq<u8> {
    seq![116u8, 104u8, 105u8, 114u8, 100u8, 45u8, 112u8, 97u8, 114u8, 116u8, 121u8]
}

/// `~third-party`
pub open spec fn kw_not_third_party() -> Seq<u8> {
    seq![126u8, 116u8, 104u8, 105u8, 114u8, 100u8, 45u8, 112u8, 97u8, 114u8, 116u8, 121u8]
}

/// `first-party`
pub open spec fn kw_first_party() -> Seq<u8> {
    seq![102u8, 105u8, 114u8, 115u8, 116u8, 45u8, 112u8, 97u8, 114u8, 116u8, 121u8]
}

/// `match-case`
pub open spec fn kw_match_case() -> Seq<u8> {
    seq![109u8, 97u8, 116u8, 99u8, 104u8, 45u8, 99u8, 97u8, 115u8, 101u8]
}

/// `important`
pub open spec fn kw_important() -> Seq<u8> {
    seq![105u8, 109u8, 112u8, 111u8, 114u8, 116u8, 97u8, 110u8, 116u8]
}

/// `document`
pub open spec fn kw_document() -> Seq<u8> {
    seq![100u8, 111u8, 99u8, 117u8, 109u8, 101u8, 110u8, 116u8]
}

/// `script`
pub open spec fn kw_script() -> Seq<u8> {
    seq![115u8, 99u8, 114u8, 105u8, 112u8, 116u8]
}

/// `image`
pub open spec fn kw_image() -> Seq<u8> {
    seq![105u8, 109u8, 97u8, 103u8, 101u8]
}

/// `stylesheet`
pub open spec fn kw_stylesheet() -> Seq<u8> {
    seq![115u8, 116u8, 121u8, 108u8, 101u8, 115u8, 104u8, 101u8, 101u8, 116u8]
}

/// `xhr`
pub open spec fn kw_xhr() -> Seq<u8> {
    seq![120u8, 104u8, 114u8]
}

/// `other`
pub open spec fn kw_other() -> Seq<u8> {
    seq![111u8, 116u8, 104u8, 101u8, 114u8]
}

/// `domain=`
pub open spec fn kw_domain_eq() -> Seq<u8> {
    seq![100u8, 111u8, 109u8, 97u8, 105u8, 110u8, 61u8]
}

/// `csp=`
pub open spec fn kw_csp_eq() -> Seq<u8> {
    seq![99u8, 115u8, 112u8, 61u8]
}

/// `redirect=`
pub open spec fn kw_redirect_eq() -> Seq<u8> {
    seq![114u8, 101u8, 100u8, 105u8, 114u8, 101u8, 99u8, 116u8, 61u8]
}

pub fn kw_third_party_x() -> (r: Vec<u8>)
    ensures
        r@ == kw_third_party(),
{
    let r: Vec<u8> = vec![116, 104, 105, 114, 100, 45, 112, 97, 114, 116, 121];
    proof {
        assert(r@ =~= kw_third_party());
    }
    r
}

pub fn kw_not_third_party_x() -> (r: Vec<u8>)
    ensures
        r@ == kw_not_third_party(),
{
    let r: Vec<u8> = vec![126, 116, 104, 105, 114, 100, 45, 112, 97, 114, 116, 121];
    proof {
        assert(r@ =~= kw_not_third_party());
    }
    r
}

pub fn kw_first_party_x() -> (r: Vec<u8>)
    ensures
        r@ == kw_first_party(),
{
    let r: Vec<u8> = vec![102, 105, 114, 115, 116, 45, 112, 97, 114, 116, 121];
    proof {
        assert(r@ =~= kw_first_party());
    }
    r
}

pub fn kw_match_case_x() -> (r: Vec<u8>)
    ensures
        r@ == kw_match_case(),
{
    let r: Vec<u8> = vec![109, 97, 116, 99, 104, 45, 99, 97, 115, 101];
    proof {
        assert(r@ =~= kw_match_case());
    }
    r
}

pub fn kw_important_x() -> (r: Vec<u8>)
    ensures
        r@ == kw_important(),
{
    let r: Vec<u8> = vec![105, 109, 112, 111, 114, 116, 97, 110, 116];
    proof {
        assert(r@ =~= kw_important());
    }
    r
}

pub fn kw_document_x() -> (r: Vec<u8>)
    ensures
        r@ == kw_document(),
{
    let r: Vec<u8> = vec![100, 111, 99, 117, 109, 101, 110, 116];
    proof {
        assert(r@ =~= kw_document());
    }
    r
}

pub fn kw_script_x() -> (r: Vec<u8>)
    ensures
        r@ == kw_script(),
{
    let r: Vec<u8> = vec![115, 99, 114, 105, 112, 116];
    proof {
        assert(r@ =~= kw_script());
    }
    r
}

pub fn kw_image_x() -> (r: Vec<u8>)
    ensures
        r@ == kw_image(),
{
    let r: Vec<u8> = vec![105, 109, 97, 103, 101];
    proof {
        assert(r@ =~= kw_image());
    }
    r
}

pub fn kw_stylesheet_x() -> (r: Vec<u8>)
    ensures
        r@ == kw_stylesheet(),
{
    let r: Vec<u8> = vec![115, 116, 121, 108, 101, 115, 104, 101, 101, 116];
    proof {
        assert(r@ =~= kw_stylesheet());
    }
    r
}

pub fn kw_xhr_x() -> (r: Vec<u8>)
    ensures
        r@ == kw_xhr(),
{
    let r: Vec<u8> = vec![120, 104, 114];
    proof {
        assert(r@ =~= kw_xhr());
    }
    r
}

pub fn kw_other_x() -> (r: Vec<u8>)
    ensures
        r@ == kw_other(),
{
    let r: Vec<u8> = vec![111, 116, 104, 101, 114];
    proof {
        assert(r@ =~= kw_other());
    }
    r
}

pub fn kw_domain_eq_x() -> (r: Vec<u8>)
    ensures
        r@ == kw_domain_eq(),
{
    let r: Vec<u8> = vec![100, 111, 109, 97, 105, 110, 61];
    proof {
        assert(r@ =~= kw_domain_eq());
    }
    r
}

pub fn kw_csp_eq_x() -> (r: Vec<u8>)
    ensures
        r@ == kw_csp_eq(),
{
    let r: Vec<u8> = vec![99, 115, 112, 61];
    proof {
        assert(r@ =~= kw_csp_eq());
    }
    r
}

pub fn kw_redirect_eq_x() -> (r: Vec<u8>)
    ensures
        r@ == kw_redirect_eq(),
{
    let r: Vec<u8> = vec![114, 101, 100, 105, 114, 101, 99, 116, 61];
    proof {
        assert(r@ =~= kw_redirect_eq());
    }
    r
}

/// Whether `s` starts with the prefix `p`.
pub open spec fn starts_with(s: Seq<u8>, p: Seq<u8>) -> bool {
    s.len() >= p.len() && s.take(p.len() as int) == p
}

pub fn starts_with_x(s: &Vec<u8>, p: &Vec<u8>) -> (r: bool)
    ensures
        r == starts_with(s@, p@),
{
    if s.len() < p.len() {
        return false;
    }
    let pre = sub_bytes(s, 0, p.len());
    proof {
        assert(s@.subrange(0, p@.len() as int) =~= s@.take(p@.len() as int));
    }
    bytes_eq(&pre, p)
}

/// The option accumulator of one rule line.
pub struct OptAcc {
    pub party: PartyFilter,
    pub types: TypeMask,
    pub match_case: bool,
    pub important: bool,
    pub included: Vec<u64>,
    pub excluded: Vec<u64>,
    pub redirect: Option<Vec<u8>>,
    pub csp: Option<Vec<u8>>,
}

/// Mathematical view of an [`OptAcc`].
pub struct OptAccG {
    pub party: PartyFilter,
    pub types: TypeMask,
    pub match_case: bool,
    pub important: bool,
    pub included: Seq<u64>,
    pub excluded: Seq<u64>,
    pub redirect: Option<Seq<u8>>,
    pub csp: Option<Seq<u8>>,
}

impl View for OptAcc {
    type V = OptAccG;

    open spec fn view(&self) -> OptAccG {
        OptAccG {
            party: self.party,
            types: self.types,
            match_case: self.match_case,
            important: self.important,
            included: self.included@,
            excluded: self.excluded@,
            redirect: opt_bytes_view(self.redirect),
            csp: opt_bytes_view(self.csp),
        }
    }
}

/// The neutral option accumulator: any party, any type, no modifiers.
pub open spec fn opts_default() -> OptAccG {
    OptAccG {
        party: PartyFilter::Any,
        types: TypeMask {
            document: false,
            script: false,
            image: false,
            stylesheet: false,
            xhr: false,
            other: false,
        },
        match_case: false,
        important: false,
        included: Seq::empty(),
        excluded: Seq::empty(),
        redirect: Option::None,
        csp: Option::None,
    }
}

pub fn opts_default_x() -> (r: OptAcc)
    ensures
        r@ == opts_default(),
{
    let r = OptAcc {
        party: PartyFilter::Any,
        types: TypeMask {
            document: false,
            script: false,
            image: false,
            stylesheet: false,
            xhr: false,
            other: false,
        },
        match_case: false,
        important: false,
        included: Vec::new(),
        excluded: Vec::new(),
        redirect: Option::None,
        csp: Option::None,
    };
    proof {
        assert(r@.included =~= opts_default().included);
        assert(r@.excluded =~= opts_default().excluded);
    }
    r
}

/// Parse a `domain=` value: `|`-separated entries, `~` for exclusion;
/// each entry is lower-cased and hashed.
pub open spec fn parse_domains(val: Seq<u8>, inc: Seq<u64>, exc: Seq<u64>) -> Result<
    (Seq<u64>, Seq<u64>),
    (ParseReason, Seq<u8>),
>
    decreases val.len(),
    via parse_domains_decreases
{
    let j = find_from(val, 124, 0);
    let entry = val.take(j);
    if entry.len() == 0 {
        Result::Err((ParseReason::EmptyDomainEntry, entry))
    } else {
        let neg = entry[0] == 126;
        let name = if neg {
            entry.skip(1)
        } else {
            entry
        };
        if name.len() == 0 {
            Result::Err((ParseReason::EmptyDomainEntry, entry))
        } else {
            let h = fnv64(lower_bytes(name));
            let inc2 = if neg {
                inc
            } else {
                inc.push(h)
            };
            let exc2 = if neg {
                exc.push(h)
            } else {
                exc
            };
            if j >= val.len() {
                Result::Ok((inc2, exc2))
            } else {
                parse_domains(val.skip(j + 1), inc2, exc2)
            }
        }
    }
}

#[via_fn]
proof fn parse_domains_decreases(val: Seq<u8>, inc: Seq<u64>, exc: Seq<u64>) {
    lemma_find_from_bounds(val, 124, 0);
}

/// Executable `domain=` value parser; extends the two accumulators.
#[verifier::loop_isolation(false)]
pub fn parse_domains_x(val0: &Vec<u8>, inc0: Vec<u64>, exc0: Vec<u64>) -> (r: Result<
    (Vec<u64>, Vec<u64>),
    (ParseReason, Vec<u8>),
>)
    ensures
        match r {
            Result::Ok((inc, exc)) => parse_domains(val0@, inc0@, exc0@) == Result::<
                (Seq<u64>, Seq<u64>),
                (ParseReason, Seq<u8>),
            >::Ok((inc@, exc@)),
            Result::Err((reason, tok)) => parse_domains(val0@, inc0@, exc0@) == Result::<
                (Seq<u64>, Seq<u64>),
                (ParseReason, Seq<u8>),
            >::Err((reason, tok@)),
        },
{
    let mut rem = copy_bytes(val0);
    let mut inc: Vec<u64> = inc0;
    let mut exc: Vec<u64> = exc0;
    loop
        invariant
            parse_domains(val0@, inc0@, exc0@) == parse_domains(rem@, inc@, exc@),
        decreases rem@.len(),
    {
        let j = find_from_x(&rem, 124, 0);
        let entry = sub_bytes(&rem, 0, j);
        proof {
            assert(entry@ =~= rem@.take(j as int));
        }
        if entry.len() == 0 {
            return Result::Err((ParseReason::EmptyDomainEntry, entry));
        }
        let neg = entry[0] == 126;
        let name = if neg {
            sub_bytes(&entry, 1, entry.len())
        } else {
            copy_bytes(&entry)
        };
        proof {
            if neg {
                assert(name@ =~= entry@.skip(1));
            }
        }
        if name.len() == 0 {
            return Result::Err((ParseReason::EmptyDomainEntry, entry));
        }
        let lowered = to_lower_bytes(&name);
        let h = fnv64_bytes(&lowered);
        if neg {
            exc.push(h);
        } else {
            inc.push(h);
        }
        if j >= rem.len() {
            return Result::Ok((inc, exc));
        }
        let next = sub_bytes(&rem, j + 1, rem.len());
        proof {
            assert(next@ =~= rem@.skip(j + 1 as int));
        }
        rem = next;
    }
}

/// Apply one option token to the accumulator.
pub open spec fn apply_opt(acc: OptAccG, tok: Seq<u8>) -> Result<OptAccG, (ParseReason, Seq<u8>)> {
    if tok.len() == 0 {
        Result::Err((ParseReason::EmptyOption, tok))
    } else if tok == kw_third_party() {
        Result::Ok(OptAccG { party: PartyFilter::ThirdOnly, ..acc })
    } else if tok == kw_not_third_party() || tok == kw_first_party() {
        Result::Ok(OptAccG { party: PartyFilter::FirstOnly, ..acc })
    } else if tok == kw_match_case() {
        Result::Ok(OptAccG { match_case: true, ..acc })
    } else if tok == kw_important() {
        Result::Ok(OptAccG { important: true, ..acc })
    } else if tok == kw_document() {
        Result::Ok(OptAccG { types: TypeMask { document: true, ..acc.types }, ..acc })
    } else if tok == kw_script() {
        Result::Ok(OptAccG { types: TypeMask { script: true, ..acc.types }, ..acc })
    } else if tok == kw_image() {
        Result::Ok(OptAccG { types: TypeMask { image: true, ..acc.types }, ..acc })
    } else if tok == kw_stylesheet() {
        Result::Ok(OptAccG { types: TypeMask { stylesheet: true, ..acc.types }, ..acc })
    } else if tok == kw_xhr() {
        Result::Ok(OptAccG { types: TypeMask { xhr: true, ..acc.types }, ..acc })
    } else if tok == kw_other() {
        Result::Ok(OptAccG { types: TypeMask { other: true, ..acc.types }, ..acc })
    } else if starts_with(tok, kw_domain_eq()) {
        let val = tok.skip(7);
        if val.len() == 0 {
            Result::Err((ParseReason::EmptyOptionValue, tok))
        } else {
            match parse_domains(val, acc.included, acc.excluded) {
                Result::Ok((inc, exc)) => Result::Ok(
                    OptAccG { included: inc, excluded: exc, ..acc },
                ),
                Result::Err(e) => Result::Err(e),
            }
        }
    } else if starts_with(tok, kw_csp_eq()) {
        let val = tok.skip(4);
        if val.len() == 0 {
            Result::Err((ParseReason::EmptyOptionValue, tok))
        } else {
            Result::Ok(OptAccG { csp: Option::Some(val), ..acc })
        }
    } else if starts_with(tok, kw_redirect_eq()) {
        let val = tok.skip(9);
        if val.len() == 0 {
            Result::Err((ParseReason::EmptyOptionValue, tok))
        } else {
            Result::Ok(OptAccG { redirect: Option::Some(val), ..acc })
        }
    } else {
        Result::Err((ParseReason::UnknownOption, tok))
    }
}

/// Parse a `,`-separated option list.
pub open spec fn parse_opts(s: Seq<u8>, acc: OptAccG) -> Result<OptAccG, (ParseReason, Seq<u8>)>
    decreases s.len(),
    via parse_opts_decreases
{
    let j = find_from(s, 44, 0);
    let tok = s.take(j);
    match apply_opt(acc, tok) {
        Result::Err(e) => Result::Err(e),
        Result::Ok(acc2) => {
            if j >= s.len() {
                Result::Ok(acc2)
            } else {
                parse_opts(s.skip(j + 1), acc2)
            }
        },
    }
}

#[via_fn]
proof fn parse_opts_decreases(s: Seq<u8>, acc: OptAccG) {
    lemma_find_from_bounds(s, 44, 0);
}

/// Executable option-token handler.
#[verifier::rlimit(100)]
pub fn apply_opt_x(acc: OptAcc, tok: Vec<u8>) -> (r: Result<OptAcc, (ParseReason, Vec<u8>)>)
    ensures
        match r {
            Result::Ok(acc2) => apply_opt(acc@, tok@) == Result::<OptAccG, (ParseReason, Seq<u8>)>::Ok(acc2@),
            Result::Err((reason, t)) => apply_opt(acc@, tok@) == Result::<
                OptAccG,
                (ParseReason, Seq<u8>),
            >::Err((reason, t@)),
        },
{
    if tok.len() == 0 {
        return Result::Err((ParseReason::EmptyOption, tok));
    }
    if bytes_eq(&tok, &kw_third_party_x()) {
        return Result::Ok(OptAcc { party: PartyFilter::ThirdOnly, ..acc });
    }
    if bytes_eq(&tok, &kw_not_third_party_x()) || bytes_eq(&tok, &kw_first_party_x()) {
        return Result::Ok(OptAcc { party: PartyFilter::FirstOnly, ..acc });
    }
    if bytes_eq(&tok, &kw_match_case_x()) {
        return Result::Ok(OptAcc { match_case: true, ..acc });
    }
    if bytes_eq(&tok, &kw_important_x()) {
        return Result::Ok(OptAcc { important: true, ..acc });
    }
    if bytes_eq(&tok, &kw_document_x()) {
        return Result::Ok(OptAcc { types: TypeMask { document: true, ..acc.types }, ..acc });
    }
    if bytes_eq(&tok, &kw_script_x()) {
        return Result::Ok(OptAcc { types: TypeMask { script: true, ..acc.types }, ..acc });
    }
    if bytes_eq(&tok, &kw_image_x()) {
        return Result::Ok(OptAcc { types: TypeMask { image: true, ..acc.types }, ..acc });
    }
    if bytes_eq(&tok, &kw_stylesheet_x()) {
        return Result::Ok(OptAcc { types: TypeMask { stylesheet: true, ..acc.types }, ..acc });
    }
    if bytes_eq(&tok, &kw_xhr_x()) {
        return Result::Ok(OptAcc { types: TypeMask { xhr: true, ..acc.types }, ..acc });
    }
    if bytes_eq(&tok, &kw_other_x()) {
        return Result::Ok(OptAcc { types: TypeMask { other: true, ..acc.types }, ..acc });
    }
    if starts_with_x(&tok, &kw_domain_eq_x()) {
        let val = sub_bytes(&tok, 7, tok.len());
        proof {
            assert(val@ =~= tok@.skip(7));
        }
        if val.len() == 0 {
            return Result::Err((ParseReason::EmptyOptionValue, tok));
        }
        // The domain lists accumulate on top of what earlier
        // `domain=` options put there.
        let mut acc2 = acc;
        let inc_acc = acc2.included;
        let exc_acc = acc2.excluded;
        acc2.included = Vec::new();
        acc2.excluded = Vec::new();
        match parse_domains_x(&val, inc_acc, exc_acc) {
            Result::Ok((inc, exc)) => {
                acc2.included = inc;
                acc2.excluded = exc;
                return Result::Ok(acc2);
            },
            Result::Err(e) => {
                return Result::Err(e);
            },
        }
    }
    if starts_with_x(&tok, &kw_csp_eq_x()) {
        let val = sub_bytes(&tok, 4, tok.len());
        proof {
            assert(val@ =~= tok@.skip(4));
        }
        if val.len() == 0 {
            return Result::Err((ParseReason::EmptyOptionValue, tok));
        }
        return Result::Ok(OptAcc { csp: Option::Some(val), ..acc });
    }
    if starts_with_x(&tok, &kw_redirect_eq_x()) {
        let val = sub_bytes(&tok, 9, tok.len());
        proof {
            assert(val@ =~= tok@.skip(9));
        }
        if val.len() == 0 {
            return Result::Err((ParseReason::EmptyOptionValue, tok));
        }
        return Result::Ok(OptAcc { redirect: Option::Some(val), ..acc });
    }
    Result::Err((ParseReason::UnknownOption, tok))
}

/// Executable option-list parser.
#[verifier::loop_isolation(false)]
pub fn parse_opts_x(opts0: &Vec<u8>, acc0: OptAcc) -> (r: Result<OptAcc, (ParseReason, Vec<u8>)>)
    ensures
        match r {
            Result::Ok(acc) => parse_opts(opts0@, acc0@) == Result::<OptAccG, (ParseReason, Seq<u8>)>::Ok(acc@),
            Result::Err((reason, t)) => parse_opts(opts0@, acc0@) == Result::<
                OptAccG,
                (ParseReason, Seq<u8>),
            >::Err((reason, t@)),
        },
{
    let mut rem = copy_bytes(opts0);
    let mut acc = acc0;
    loop
        invariant
            parse_opts(opts0@, acc0@) == parse_opts(rem@, acc@),
        decreases rem@.len(),
    {
        let j = find_from_x(&rem, 44, 0);
        let tok = sub_bytes(&rem, 0, j);
        proof {
            assert(tok@ =~= rem@.take(j as int));
        }
        match apply_opt_x(acc, tok) {
            Result::Err(e) => {
                return Result::Err(e);
            },
            Result::Ok(acc2) => {
                if j >= rem.len() {
                    return Result::Ok(acc2);
                }
                let next = sub_bytes(&rem, j + 1, rem.len());
                proof {
                    assert(next@ =~= rem@.skip(j + 1 as int));
                }
                rem = next;
                acc = acc2;
            },
        }
    }
}

/// The tokens of one literal pattern segment: `^` becomes the
/// separator placeholder, every other byte a literal (lower-cased
/// unless the rule is case-sensitive).
pub open spec fn toks_of(s: Seq<u8>, lower: bool) -> Seq<PatTok> {
    s.map_values(
        |c: u8|
            if c == 94 {
                PatTok::Sep
            } else {
                PatTok::Byte(
                    if lower {
                        lower_byte(c)
                    } else {
                        c
                    },
                )
            },
    )
}

pub fn toks_of_x(s: &Vec<u8>, lower: bool) -> (r: Vec<PatTok>)
    ensures
        r@ == toks_of(s@, lower),
{
    let mut r: Vec<PatTok> = Vec::new();
    let mut i: usize = 0;
    while i < s.len()
        invariant
            i <= s@.len(),
            r@ == toks_of(s@.take(i as int), lower),
        decreases s@.len() - i,
    {
        let c = s[i];
        let t = if c == 94 {
            PatTok::Sep
        } else {
            PatTok::Byte(
                if lower {
                    lower_byte(c)
                } else {
                    c
                },
            )
        };
        r.push(t);
        proof {
            assert(toks_of(s@.take(i + 1 as int), lower) =~= toks_of(s@.take(i as int),
                lower).push(t));
        }
        i = i + 1;
    }
    proof {
        assert(s@.take(s@.len() as int) == s@);
    }
    r
}

/// The non-empty literal segments of a pattern body, split on `*`.
pub open spec fn split_segments(body: Seq<u8>, lower: bool) -> Seq<Seq<PatTok>>
    decreases body.len(),
    via split_segments_decreases
{
    let j = find_from(body, 42, 0);
    let seg = toks_of(body.take(j), lower);
    let rest = if j >= body.len() {
        Seq::<Seq<PatTok>>::empty()
    } else {
        split_segments(body.skip(j + 1), lower)
    };
    if seg.len() == 0 {
        rest
    } else {
        seq![seg] + rest
    }
}

#[via_fn]
proof fn split_segments_decreases(body: Seq<u8>, lower: bool) {
    lemma_find_from_bounds(body, 42, 0);
}

/// Total literal length of a pattern, the specificity measure.
pub open spec fn segs_total_len(segs: Seq<Seq<PatTok>>) -> nat
    decreases segs.len(),
{
    if segs.len() == 0 {
        0
    } else {
        segs[0].len() + segs_total_len(segs.skip(1))
    }
}

/// A pattern's total literal length never exceeds its source text.
pub proof fn lemma_split_total_len(body: Seq<u8>, lower: bool)
    ensures
        segs_total_len(split_segments(body, lower)) <= body.len(),
    decreases body.len(),
{
    lemma_find_from_bounds(body, 42, 0);
    let j = find_from(body, 42, 0);
    let seg = toks_of(body.take(j), lower);
    assert(seg.len() == j);
    let rest = if j >= body.len() {
        Seq::<Seq<PatTok>>::empty()
    } else {
        split_segments(body.skip(j + 1), lower)
    };
    if j < body.len() {
        lemma_split_total_len(body.skip(j + 1), lower);
        assert(segs_total_len(rest) <= body.len() - j - 1);
    } else {
        assert(segs_total_len(rest) == 0);
    }
    if seg.len() == 0 {
        assert(split_segments(body, lower) == rest);
    } else {
        let s = seq![seg] + rest;
        assert(split_segments(body, lower) == s);
        assert(s[0] == seg);
        assert(s.skip(1) =~= rest);
        assert(segs_total_len(s) == seg.len() + segs_total_len(rest));
    }
}

/// Executable segment splitter.
#[verifier::loop_isolation(false)]
pub fn split_segments_x(body0: &Vec<u8>, lower: bool) -> (r: Vec<Vec<PatTok>>)
    ensures
        seg_views(r@) == split_segments(body0@, lower),
{
    let mut rem = copy_bytes(body0);
    let mut out: Vec<Vec<PatTok>> = Vec::new();
    proof {
        assert(seg_views(out@) =~= Seq::<Seq<PatTok>>::empty());
        assert(seg_views(out@) + split_segments(rem@, lower) =~= split_segments(body0@, lower));
    }
    loop
        invariant
            seg_views(out@) + split_segments(rem@, lower) == split_segments(body0@, lower),
        decreases rem@.len(),
    {
        let j = find_from_x(&rem, 42, 0);
        let piece = sub_bytes(&rem, 0, j);
        proof {
            assert(piece@ =~= rem@.take(j as int));
        }
        let seg = toks_of_x(&piece, lower);
        let ghost rest_spec = if j as int >= rem@.len() {
            Seq::<Seq<PatTok>>::empty()
        } else {
            split_segments(rem@.skip(j + 1 as int), lower)
        };
        proof {
            if seg@.len() != 0 {
                assert(split_segments(rem@, lower) == seq![seg@] + rest_spec);
            } else {
                assert(split_segments(rem@, lower) == rest_spec);
            }
        }
        let ghost out_before = out@;
        if seg.len() > 0 {
            out.push(seg);
            proof {
                assert(seg_views(out@) =~= seg_views(out_before).push(seg@));
                assert(seg_views(out_before) + (seq![seg@] + rest_spec) =~= seg_views(out@)
                    + rest_spec);
            }
        }
        if j >= rem.len() {
            proof {
                assert(seg_views(out@) + Seq::<Seq<PatTok>>::empty() =~= seg_views(out@));
            }
            return out;
        }
        let next = sub_bytes(&rem, j + 1, rem.len());
        proof {
            assert(next@ =~= rem@.skip(j + 1 as int));
        }
        rem = next;
    }
}

/// The compiled pattern of a pattern text: anchors stripped, body
/// split into literal segments.
pub open spec fn parse_pattern(t: Seq<u8>, lower: bool) -> PatternG {
    let host = t.len() >= 2 && t[0] == 124 && t[1] == 124;
    let t1 = if host {
        t.skip(2)
    } else {
        t
    };
    let astart = !host && t1.len() >= 1 && t1[0] == 124;
    let t2 = if astart {
        t1.skip(1)
    } else {
        t1
    };
    let aend = t2.len() >= 1 && t2.last() == 124;
    let t3 = if aend {
        t2.drop_last()
    } else {
        t2
    };
    PatternG {
        host_anchor: host,
        anchor_start: astart,
        anchor_end: aend,
        segments: split_segments(t3, lower),
    }
}

/// Executable pattern compiler.
pub fn parse_pattern_x(t: &Vec<u8>, lower: bool) -> (r: Pattern)
    ensures
        r@ == parse_pattern(t@, lower),
        segs_total_len(r@.segments) <= t@.len(),
{
    let host = t.len() >= 2 && t[0] == 124 && t[1] == 124;
    let a: usize = if host {
        2
    } else {
        0
    };
    let astart = !host && t.len() >= 1 && a < t.len() && t[a] == 124;
    let a2: usize = if astart {
        a + 1
    } else {
        a
    };
    let aend = t.len() > a2 && t[t.len() - 1] == 124;
    let b: usize = if aend {
        t.len() - 1
    } else {
        t.len()
    };
    let body = sub_bytes(t, a2, b);
    proof {
        let tg = t@;
        let t1 = if host {
            tg.skip(2)
        } else {
            tg
        };
        let t2 = if astart {
            t1.skip(1)
        } else {
            t1
        };
        assert(astart == (!host && t1.len() >= 1 && t1[0] == 124));
        let aend_s = t2.len() >= 1 && t2.last() == 124;
        assert(aend == aend_s);
        let t3 = if aend_s {
            t2.drop_last()
        } else {
            t2
        };
        assert(body@ =~= t3);
    }
    let segments = split_segments_x(&body, lower);
    proof {
        lemma_split_total_len(body@, lower);
    }
    Pattern { host_anchor: host, anchor_start: astart, anchor_end: aend, segments }
}

/// Executable specificity computation.
#[verifier::loop_isolation(false)]
pub fn specificity_x(segs: &Vec<Vec<PatTok>>) -> (r: usize)
    requires
        segs_total_len(seg_views(segs@)) <= usize::MAX,
    ensures
        r == segs_total_len(seg_views(segs@)),
{
    proof {
        assert(seg_views(segs@).skip(0) =~= seg_views(segs@));
    }
    let mut sum: usize = 0;
    let mut i: usize = 0;
    while i < segs.len()
        invariant
            i <= segs@.len(),
            sum + segs_total_len(seg_views(segs@).skip(i as int)) == segs_total_len(
                seg_views(segs@)),
        decreases segs@.len() - i,
    {
        proof {
            assert(seg_views(segs@).skip(i as int)[0] == segs@[i as int]@);
            assert(seg_views(segs@).skip(i as int).skip(1) =~= seg_views(segs@).skip(i + 1 as int));
        }
        sum = sum + segs[i].len();
        i = i + 1;
    }
    proof {
        assert(seg_views(segs@).skip(segs@.len() as int).len() == 0);
    }
    sum
}

/// One byte of a flag, for the rule fingerprint.
pub open spec fn bool_byte(b: bool) -> u8 {
    if b {
        1
    } else {
        0
    }
}

/// One byte for the party restriction, for the rule fingerprint.
pub open spec fn party_byte(p: PartyFilter) -> u8 {
    match p {
        PartyFilter::Any => 0,
        PartyFilter::ThirdOnly => 1,
        PartyFilter::FirstOnly => 2,
    }
}

/// Little-endian encoding of a hashed domain identifier.
pub open spec fn enc_u64(x: u64) -> Seq<u8> {
    seq![
        (x % 256) as u8,
        ((x / 0x100) % 256) as u8,
        ((x / 0x10000) % 256) as u8,
        ((x / 0x1000000) % 256) as u8,
        ((x / 0x100000000) % 256) as u8,
        ((x / 0x10000000000) % 256) as u8,
        ((x / 0x1000000000000) % 256) as u8,
        ((x / 0x100000000000000) % 256) as u8,
    ]
}

/// Encoding of one pattern token, for the rule fingerprint.
pub open spec fn enc_tok(t: PatTok) -> Seq<u8> {
    match t {
        PatTok::Byte(b) => seq![1u8, b],
        PatTok::Sep => seq![2u8, 0u8],
    }
}

pub open spec fn enc_toks(s: Seq<PatTok>) -> Seq<u8>
    decreases s.len(),
{
    if s.len() == 0 {
        Seq::empty()
    } else {
        enc_toks(s.drop_last()) + enc_tok(s.last())
    }
}

pub open spec fn enc_segs(segs: Seq<Seq<PatTok>>) -> Seq<u8>
    decreases segs.len(),
{
    if segs.len() == 0 {
        Seq::empty()
    } else {
        enc_segs(segs.drop_last()) + seq![3u8, 0u8] + enc_toks(segs.last())
    }
}

pub open spec fn enc_u64s(v: Seq<u64>) -> Seq<u8>
    decreases v.len(),
{
    if v.len() == 0 {
        Seq::empty()
    } else {
        enc_u64s(v.drop_last()) + enc_u64(v.last())
    }
}

pub open spec fn enc_opt_bytes(o: Option<Seq<u8>>) -> Seq<u8> {
    match o {
        Option::None => seq![0u8],
        Option::Some(s) => seq![1u8] + s,
    }
}

/// The canonical byte encoding of a rule's defining fields, hashed
/// into the rule id.
pub open spec fn rule_fingerprint(
    pat: PatternG,
    mask: RuleMask,
    inc: Seq<u64>,
    exc: Seq<u64>,
    redirect: Option<Seq<u8>>,
    csp: Option<Seq<u8>>,
) -> Seq<u8> {
    seq![
        bool_byte(mask.exception),
        bool_byte(mask.important),
        bool_byte(mask.match_case),
        party_byte(mask.party),
        bool_byte(mask.types.document),
        bool_byte(mask.types.script),
        bool_byte(mask.types.image),
        bool_byte(mask.types.stylesheet),
        bool_byte(mask.types.xhr),
        bool_byte(mask.types.other),
        bool_byte(pat.host_anchor),
        bool_byte(pat.anchor_start),
        bool_byte(pat.anchor_end),
    ] + enc_segs(pat.segments) + seq![4u8] + enc_u64s(inc) + seq![5u8] + enc_u64s(exc) + seq![6u8]
        + enc_opt_bytes(redirect) + seq![7u8] + enc_opt_bytes(csp)
}

/// The stable id of a rule: the FNV-1a hash of its fingerprint.
pub open spec fn rule_id(
    pat: PatternG,
    mask: RuleMask,
    inc: Seq<u64>,
    exc: Seq<u64>,
    redirect: Option<Seq<u8>>,
    csp: Option<Seq<u8>>,
) -> u64 {
    fnv64(rule_fingerprint(pat, mask, inc, exc, redirect, csp))
}

/// Append the little-endian encoding of `x`.
pub fn push_u64(out: &mut Vec<u8>, x: u64)
    ensures
        final(out)@ == old(out)@ + enc_u64(x),
{
    out.push((x % 256) as u8);
    out.push(((x / 0x100) % 256) as u8);
    out.push(((x / 0x10000) % 256) as u8);
    out.push(((x / 0x1000000) % 256) as u8);
    out.push(((x / 0x100000000) % 256) as u8);
    out.push(((x / 0x10000000000) % 256) as u8);
    out.push(((x / 0x1000000000000) % 256) as u8);
    out.push(((x / 0x100000000000000) % 256) as u8);
    proof {
        assert(final(out)@ =~= old(out)@ + enc_u64(x));
    }
}

/// Append the encoding of one segment's tokens.
#[verifier::loop_isolation(false)]
pub fn push_toks(out: &mut Vec<u8>, seg: &Vec<PatTok>)
    ensures
        final(out)@ == old(out)@ + enc_toks(seg@),
{
    let mut j: usize = 0;
    let ghost base = out@;
    proof {
        assert(enc_toks(seg@.take(0)) =~= Seq::<u8>::empty());
        assert(out@ =~= base + enc_toks(seg@.take(0)));
    }
    while j < seg.len()
        invariant
            j <= seg@.len(),
            out@ == base + enc_toks(seg@.take(j as int)),
        decreases seg@.len() - j,
    {
        match seg[j] {
            PatTok::Byte(b) => {
                out.push(1u8);
                out.push(b);
            },
            PatTok::Sep => {
                out.push(2u8);
                out.push(0u8);
            },
        }
        proof {
            assert(seg@.take(j + 1 as int).drop_last() =~= seg@.take(j as int));
            assert(seg@.take(j + 1 as int).last() == seg@[j as int]);
            assert(out@ =~= base + enc_toks(seg@.take(j + 1 as int)));
        }
        j = j + 1;
    }
    proof {
        assert(seg@.take(seg@.len() as int) == seg@);
    }
}

/// Append the encoding of all pattern segments.
#[verifier::loop_isolation(false)]
pub fn push_segs(out: &mut Vec<u8>, segs: &Vec<Vec<PatTok>>)
    ensures
        final(out)@ == old(out)@ + enc_segs(seg_views(segs@)),
{
    let mut si: usize = 0;
    let ghost base = out@;
    proof {
        assert(enc_segs(seg_views(segs@).take(0)) =~= Seq::<u8>::empty());
        assert(out@ =~= base + enc_segs(seg_views(segs@).take(0)));
    }
    while si < segs.len()
        invariant
            si <= segs@.len(),
            out@ == base + enc_segs(seg_views(segs@).take(si as int)),
        decreases segs@.len() - si,
    {
        out.push(3u8);
        out.push(0u8);
        push_toks(out, &segs[si]);
        proof {
            assert(seg_views(segs@).take(si + 1 as int).drop_last() =~= seg_views(segs@).take(
                si as int));
            assert(seg_views(segs@).take(si + 1 as int).last() == segs@[si as int]@);
            assert(out@ =~= base + enc_segs(seg_views(segs@).take(si + 1 as int)));
        }
        si = si + 1;
    }
    proof {
        assert(seg_views(segs@).take(segs@.len() as int) == seg_views(segs@));
    }
}

/// Append the encodings of a list of hashed domains.
#[verifier::loop_isolation(false)]
pub fn push_u64s(out: &mut Vec<u8>, v: &Vec<u64>)
    ensures
        final(out)@ == old(out)@ + enc_u64s(v@),
{
    let mut i: usize = 0;
    let ghost base = out@;
    proof {
        assert(enc_u64s(v@.take(0)) =~= Seq::<u8>::empty());
        assert(out@ =~= base + enc_u64s(v@.take(0)));
    }
    while i < v.len()
        invariant
            i <= v@.len(),
            out@ == base + enc_u64s(v@.take(i as int)),
        decreases v@.len() - i,
    {
        push_u64(out, v[i]);
        proof {
            assert(v@.take(i + 1 as int).drop_last() =~= v@.take(i as int));
            assert(v@.take(i + 1 as int).last() == v@[i as int]);
            assert(out@ =~= base + enc_u64s(v@.take(i + 1 as int)));
        }
        i = i + 1;
    }
    proof {
        assert(v@.take(v@.len() as int) == v@);
    }
}

/// Append an optional byte string with a presence marker.
#[verifier::loop_isolation(false)]
pub fn push_opt_bytes(out: &mut Vec<u8>, o: &Option<Vec<u8>>)
    ensures
        final(out)@ == old(out)@ + enc_opt_bytes(opt_bytes_view(*o)),
{
    match o {
        Option::None => {
            out.push(0u8);
            proof {
                assert(final(out)@ =~= old(out)@ + enc_opt_bytes(opt_bytes_view(*o)));
            }
        },
        Option::Some(s) => {
            out.push(1u8);
            let mut i: usize = 0;
            let ghost base = out@;
            while i < s.len()
                invariant
                    i <= s@.len(),
                    out@ == base + s@.take(i as int),
                decreases s@.len() - i,
            {
                out.push(s[i]);
                proof {
                    assert(base + s@.take(i + 1 as int) =~= (base + s@.take(i as int)).push(
                        s@[i as int]));
                }
                i = i + 1;
            }
            proof {
                assert(out@ =~= old(out)@ + enc_opt_bytes(opt_bytes_view(*o)));
            }
        },
    }
}

/// The leading flag bytes of a rule fingerprint.
#[verifier::rlimit(100)]
fn fingerprint_header_x(pat: &Pattern, mask: RuleMask) -> (r: Vec<u8>)
    ensures
        r@ == seq![
            bool_byte(mask.exception),
            bool_byte(mask.important),
            bool_byte(mask.match_case),
            party_byte(mask.party),
            bool_byte(mask.types.document),
            bool_byte(mask.types.script),
            bool_byte(mask.types.image),
            bool_byte(mask.types.stylesheet),
            bool_byte(mask.types.xhr),
            bool_byte(mask.types.other),
            bool_byte(pat@.host_anchor),
            bool_byte(pat@.anchor_start),
            bool_byte(pat@.anchor_end),
        ],
{
    let mut out: Vec<u8> = Vec::new();
    out.push(if mask.exception { 1 } else { 0 });
    out.push(if mask.important { 1 } else { 0 });
    out.push(if mask.match_case { 1 } else { 0 });
    out.push(
        match mask.party {
            PartyFilter::Any => 0,
            PartyFilter::ThirdOnly => 1,
            PartyFilter::FirstOnly => 2,
        },
    );
    out.push(if mask.types.document { 1 } else { 0 });
    out.push(if mask.types.script { 1 } else { 0 });
    out.push(if mask.types.image { 1 } else { 0 });
    out.push(if mask.types.stylesheet { 1 } else { 0 });
    out.push(if mask.types.xhr { 1 } else { 0 });
    out.push(if mask.types.other { 1 } else { 0 });
    out.push(if pat.host_anchor { 1 } else { 0 });
    out.push(if pat.anchor_start { 1 } else { 0 });
    out.push(if pat.anchor_end { 1 } else { 0 });
    proof {
        assert(out@ =~= seq![
            bool_byte(mask.exception),
            bool_byte(mask.important),
            bool_byte(mask.match_case),
            party_byte(mask.party),
            bool_byte(mask.types.document),
            bool_byte(mask.types.script),
            bool_byte(mask.types.image),
            bool_byte(mask.types.stylesheet),
            bool_byte(mask.types.xhr),
            bool_byte(mask.types.other),
            bool_byte(pat@.host_anchor),
            bool_byte(pat@.anchor_start),
            bool_byte(pat@.anchor_end),
        ]);
    }
    out
}

/// The fingerprint bytes of a rule, for hashing into its id.
#[verifier::rlimit(100)]
pub fn fingerprint_x(
    pat: &Pattern,
    mask: RuleMask,
    inc: &Vec<u64>,
    exc: &Vec<u64>,
    redirect: &Option<Vec<u8>>,
    csp: &Option<Vec<u8>>,
) -> (r: Vec<u8>)
    ensures
        r@ == rule_fingerprint(
            pat@,
            mask,
            inc@,
            exc@,
            opt_bytes_view(*redirect),
            opt_bytes_view(*csp),
        ),
{
    let ghost header = seq![
        bool_byte(mask.exception),
        bool_byte(mask.important),
        bool_byte(mask.match_case),
        party_byte(mask.party),
        bool_byte(mask.types.document),
        bool_byte(mask.types.script),
        bool_byte(mask.types.image),
        bool_byte(mask.types.stylesheet),
        bool_byte(mask.types.xhr),
        bool_byte(mask.types.other),
        bool_byte(pat@.host_anchor),
        bool_byte(pat@.anchor_start),
        bool_byte(pat@.anchor_end),
    ];
    let mut out: Vec<u8> = fingerprint_header_x(pat, mask);
    proof {
        assert(out@ == header);
    }
    push_segs(&mut out, &pat.segments);
    let ghost s1 = header + enc_segs(pat@.segments);
    out.push(4u8);
    let ghost s2 = s1 + seq![4u8];
    proof {
        assert(out@ =~= s2);
    }
    push_u64s(&mut out, inc);
    let ghost s3 = s2 + enc_u64s(inc@);
    out.push(5u8);
    let ghost s4 = s3 + seq![5u8];
    proof {
        assert(out@ =~= s4);
    }
    push_u64s(&mut out, exc);
    let ghost s5 = s4 + enc_u64s(exc@);
    out.push(6u8);
    let ghost s6 = s5 + seq![6u8];
    proof {
        assert(out@ =~= s6);
    }
    push_opt_bytes(&mut out, redirect);
    let ghost s7 = s6 + enc_opt_bytes(opt_bytes_view(*redirect));
    out.push(7u8);
    let ghost s8 = s7 + seq![7u8];
    proof {
        assert(out@ =~= s8);
    }
    push_opt_bytes(&mut out, csp);
    proof {
        assert(out@ == s8 + enc_opt_bytes(opt_bytes_view(*csp)));
        assert(out@ =~= rule_fingerprint(pat@, mask, inc@, exc@, opt_bytes_view(*redirect),
            opt_bytes_view(*csp)));
    }
    out
}

/// What one rule line parses to.
pub enum LineParse {
    /// Not a network rule: empty, a comment, or a cosmetic rule.
    Skip,
    Rule(FilterRule),
    Fail(ParseReason, Vec<u8>),
}

/// Mathematical view of a [`LineParse`].
pub enum LineOutcomeG {
    Skip,
    Rule(RuleG),
    Fail(ParseReason, Seq<u8>),
}

impl View for LineParse {
    type V = LineOutcomeG;

    open spec fn view(&self) -> LineOutcomeG {
        match self {
            LineParse::Skip => LineOutcomeG::Skip,
            LineParse::Rule(r) => LineOutcomeG::Rule(r@),
            LineParse::Fail(reason, tok) => LineOutcomeG::Fail(*reason, tok@),
        }
    }
}

/// What one raw line parses to: skipped, a compiled rule, or a
/// failure with its reason and offending token. The executable
/// [`parse_line`] returns exactly this outcome.
pub closed spec fn parse_line_s(line: Seq<u8>) -> LineOutcomeG {
    let t = trim(line);
    if t.len() == 0 {
        LineOutcomeG::Skip
    } else if t[0] == 33 {
        LineOutcomeG::Skip
    } else if has_cosmetic_marker(t, 0) {
        LineOutcomeG::Skip
    } else {
        let exception = t.len() >= 2 && t[0] == 64 && t[1] == 64;
        let rest = if exception {
            t.skip(2)
        } else {
            t
        };
        let opts_res = match find_last(rest, 36, rest.len() as int) {
            Option::None => Result::Ok((rest, opts_default())),
            Option::Some(d) => {
                match parse_opts(rest.skip(d + 1), opts_default()) {
                    Result::Ok(o) => Result::Ok((rest.take(d), o)),
                    Result::Err(e) => Result::Err(e),
                }
            },
        };
        match opts_res {
            Result::Err((reason, tok)) => LineOutcomeG::Fail(reason, tok),
            Result::Ok((pat_text, opts)) => {
                let pat = parse_pattern(pat_text, !opts.match_case);
                let mask = RuleMask {
                    exception,
                    important: opts.important,
                    match_case: opts.match_case,
                    party: opts.party,
                    types: opts.types,
                };
                LineOutcomeG::Rule(
                    RuleG {
                        pattern: pat,
                        mask,
                        included_domains: opts.included,
                        excluded_domains: opts.excluded,
                        redirect_resource: opts.redirect,
                        content_security_policy: opts.csp,
                        source_text: line,
                        specificity: segs_total_len(pat.segments) as usize,
                        id: rule_id(pat, mask, opts.included, opts.excluded, opts.redirect,
                            opts.csp),
                    },
                )
            },
        }
    }
}

/// Executable rule-line parser.
pub fn parse_line(line: &Vec<u8>) -> (r: LineParse)
    ensures
        r@ == parse_line_s(line@),
{
    let t = trim_x(line);
    if t.len() == 0 {
        return LineParse::Skip;
    }
    if t[0] == 33 {
        return LineParse::Skip;
    }
    if has_cosmetic_marker_x(&t) {
        return LineParse::Skip;
    }
    let exception = t.len() >= 2 && t[0] == 64 && t[1] == 64;
    let rest = if exception {
        let r = sub_bytes(&t, 2, t.len());
        proof {
            assert(r@ =~= t@.skip(2));
        }
        r
    } else {
        t
    };
    let acc0 = opts_default_x();
    let parts: (Vec<u8>, OptAcc) = match find_last_x(&rest) {
        Option::None => (rest, acc0),
        Option::Some(d) => {
            let opts_text = sub_bytes(&rest, d + 1, rest.len());
            proof {
                assert(opts_text@ =~= rest@.skip(d + 1 as int));
            }
            match parse_opts_x(&opts_text, acc0) {
                Result::Ok(o) => {
                    let pt = sub_bytes(&rest, 0, d);
                    proof {
                        assert(pt@ =~= rest@.take(d as int));
                    }
                    (pt, o)
                },
                Result::Err((reason, tok)) => {
                    return LineParse::Fail(reason, tok);
                },
            }
        },
    };
    let pat_text = parts.0;
    let opts = parts.1;
    let pattern = parse_pattern_x(&pat_text, !opts.match_case);
    let mask = RuleMask {
        exception,
        important: opts.important,
        match_case: opts.match_case,
        party: opts.party,
        types: opts.types,
    };
    let specificity = specificity_x(&pattern.segments);
    let fp = fingerprint_x(
        &pattern,
        mask,
        &opts.included,
        &opts.excluded,
        &opts.redirect,
        &opts.csp,
    );
    let id = fnv64_bytes(&fp);
    let rule = FilterRule {
        pattern,
        mask,
        included_domains: opts.included,
        excluded_domains: opts.excluded,
        redirect_resource: opts.redirect,
        content_security_policy: opts.csp,
        source_text: copy_bytes(line),
        specificity,
        id,
    };
    LineParse::Rule(rule)
}

} // verus!
