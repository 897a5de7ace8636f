//! The rule compiler's back end: the compiled, immutable rule index.
//!
//! Rules are kept in one arena; each rule is reachable either from the
//! bucket keyed by a four-byte literal run of its pattern, or from the
//! fallback bucket when its pattern has no such run. Rules with equal
//! ids collapse to one entry (the last parsed wins, in place).

use std::collections::HashMap;
use vstd::prelude::*;
use crate::rules::{FilterRule, ParseError, ParseReason, RuleG, rule_views};
use crate::matching::{find_segs_key, find_segs_key_x};
use crate::parse::{LineOutcomeG, LineParse, parse_line, parse_line_s};

verus! {

broadcast use vstd::std_specs::hash::group_hash_axioms;

/// The views of a sequence of raw lines.
pub open spec fn line_views(lines: Seq<Vec<u8>>) -> Seq<Seq<u8>> {
    lines.map_values(|l: Vec<u8>| l@)
}

/// Ghost state of a compilation in progress.
pub struct CompStateG {
    pub rules: Seq<RuleG>,
    pub skipped: nat,
    pub deduplicated: nat,
}

/// First arena index holding a rule with the given id.
pub open spec fn find_id(rules: Seq<RuleG>, id: u64) -> Option<int>
    decreases rules.len(),
{
    if rules.len() == 0 {
        Option::None
    } else if rules[0].id == id {
        Option::Some(0)
    } else {
        match find_id(rules.skip(1), id) {
            Option::Some(i) => Option::Some(i + 1),
            Option::None => Option::None,
        }
    }
}

pub proof fn lemma_find_id_bounds(rules: Seq<RuleG>, id: u64, i: int)
    requires
        find_id(rules, id) == Option::Some(i),
    ensures
        0 <= i < rules.len(),
        rules[i].id == id,
    decreases rules.len(),
{
    if rules.len() == 0 {
    } else if rules[0].id == id {
    } else {
        let j = find_id(rules.skip(1), id)->Some_0;
        lemma_find_id_bounds(rules.skip(1), id, j);
    }
}

pub proof fn lemma_find_id_first(rules: Seq<RuleG>, id: u64, j: int)
    requires
        0 <= j < rules.len(),
        rules[j].id == id,
        forall|q: int| 0 <= q < j ==> rules[q].id != id,
    ensures
        find_id(rules, id) == Option::Some(j),
    decreases rules.len(),
{
    if rules[0].id == id {
        if j != 0 {
            assert(rules[0].id != id);
        }
    } else {
        assert(rules.skip(1)[j - 1] == rules[j]);
        assert(forall|q: int| 0 <= q < j - 1 ==> rules.skip(1)[q] == rules[q + 1]);
        lemma_find_id_first(rules.skip(1), id, j - 1);
    }
}

pub proof fn lemma_find_id_none(rules: Seq<RuleG>, id: u64)
    requires
        forall|q: int| 0 <= q < rules.len() ==> rules[q].id != id,
    ensures
        find_id(rules, id) is None,
    decreases rules.len(),
{
    if rules.len() == 0 {
    } else {
        assert(forall|q: int| 0 <= q < rules.skip(1).len() ==> rules.skip(1)[q] == rules[q + 1]);
        lemma_find_id_none(rules.skip(1), id);
    }
}

/// Insert one parsed rule: replace the entry with the same id in
/// place, or append. The flag says whether a duplicate was collapsed.
pub open spec fn insert_rule(rules: Seq<RuleG>, r: RuleG) -> (Seq<RuleG>, bool) {
    match find_id(rules, r.id) {
        Option::Some(i) => (rules.update(i, r), true),
        Option::None => (rules.push(r), false),
    }
}

/// One compilation step on one line.
pub open spec fn compile_step(st: CompStateG, line: Seq<u8>) -> Result<
    CompStateG,
    (ParseReason, Seq<u8>),
> {
    match parse_line_s(line) {
        LineOutcomeG::Skip => Result::Ok(
            CompStateG { skipped: st.skipped + 1, ..st },
        ),
        LineOutcomeG::Fail(reason, tok) => Result::Err((reason, tok)),
        LineOutcomeG::Rule(r) => {
            let (rules2, dup) = insert_rule(st.rules, r);
            Result::Ok(
                CompStateG {
                    rules: rules2,
                    skipped: st.skipped,
                    deduplicated: st.deduplicated + if dup {
                        1nat
                    } else {
                        0nat
                    },
                },
            )
        },
    }
}

/// The compilation state after the first `n` lines, or the first
/// failing line with its reason and offending token.
pub open spec fn compile_upto(lines: Seq<Seq<u8>>, n: int) -> Result<
    CompStateG,
    (int, ParseReason, Seq<u8>),
>
    decreases n,
    when 0 <= n <= lines.len()
{
    if n == 0 {
        Result::Ok(CompStateG { rules: Seq::empty(), skipped: 0, deduplicated: 0 })
    } else {
        match compile_upto(lines, n - 1) {
            Result::Err(e) => Result::Err(e),
            Result::Ok(st) => match compile_step(st, lines[n - 1]) {
                Result::Ok(st2) => Result::Ok(st2),
                Result::Err((reason, tok)) => Result::Err((n - 1, reason, tok)),
            },
        }
    }
}

/// A failed line fails the whole compilation.
pub proof fn lemma_compile_err_propagates(
    lines: Seq<Seq<u8>>,
    n: int,
    m: int,
    e: (int, ParseReason, Seq<u8>),
)
    requires
        0 <= n <= m <= lines.len(),
        compile_upto(lines, n) == Result::<CompStateG, (int, ParseReason, Seq<u8>)>::Err(e),
    ensures
        compile_upto(lines, m) == Result::<CompStateG, (int, ParseReason, Seq<u8>)>::Err(e),
    decreases m - n,
{
    if m > n {
        lemma_compile_err_propagates(lines, n, m - 1, e);
    }
}

/// What compiling a whole rule corpus yields.
pub open spec fn spec_compile(lines: Seq<Seq<u8>>) -> Result<
    CompStateG,
    (int, ParseReason, Seq<u8>),
> {
    compile_upto(lines, lines.len() as int)
}

/// The compiled index: the rule arena, the keyed buckets, and the
/// fallback bucket for patterns without a four-byte literal run.
/// Built once by [`compile`]; read-only afterwards.
pub struct CompiledIndex {
    pub rules: Vec<FilterRule>,
    pub buckets: HashMap<u64, Vec<usize>>,
    pub fallback: Vec<usize>,
    /// Non-network lines that were skipped.
    pub skipped: usize,
    /// Rules that collapsed onto an earlier rule with the same id.
    pub deduplicated: usize,
}

impl CompiledIndex {
    /// The mathematical content of the index: its rules, in arena order.
    pub open spec fn rules_view(&self) -> Seq<RuleG> {
        rule_views(self.rules@)
    }

    /// Every rule is reachable from its bucket, and every bucket entry
    /// is a valid arena index.
    pub open spec fn wf(&self) -> bool {
        &&& forall|i: int|
            0 <= i < self.rules@.len() ==> match find_segs_key(
                #[trigger] self.rules@[i]@.pattern.segments,
            ) {
                Option::Some(k) => self.buckets@.contains_key(k) && self.buckets@[k]@.contains(
                    i as usize,
                ),
                Option::None => self.fallback@.contains(i as usize),
            }
        &&& forall|k: u64|
            #[trigger] self.buckets@.contains_key(k) ==> forall|j: int|
                0 <= j < self.buckets@[k]@.len() ==> #[trigger] self.buckets@[k]@[j]
                    < self.rules@.len()
        &&& forall|j: int|
            0 <= j < self.fallback@.len() ==> #[trigger] self.fallback@[j] < self.rules@.len()
    }
}

/// A fresh copy of a vector of arena indices.
fn copy_indices(v: &Vec<usize>) -> (r: Vec<usize>)
    ensures
        r@ == v@,
{
    let mut r: Vec<usize> = Vec::new();
    let mut i: usize = 0;
    while i < v.len()
        invariant
            i <= v@.len(),
            r@ == v@.take(i as int),
        decreases v@.len() - i,
    {
        r.push(v[i]);
        proof {
            assert(v@.take(i + 1 as int) =~= v@.take(i as int).push(v@[i as int]));
        }
        i = i + 1;
    }
    proof {
        assert(v@.take(v@.len() as int) == v@);
    }
    r
}

/// First arena index holding a rule with the given id, executable.
#[verifier::loop_isolation(false)]
fn find_id_x(rules: &Vec<FilterRule>, id: u64) -> (r: Option<usize>)
    ensures
        match r {
            Option::Some(i) => find_id(rule_views(rules@), id) == Option::Some(i as int) && i
                < rules@.len(),
            Option::None => find_id(rule_views(rules@), id) is None,
        },
{
    let mut j: usize = 0;
    while j < rules.len()
        invariant
            j <= rules@.len(),
            forall|q: int| 0 <= q < j ==> rule_views(rules@)[q].id != id,
        decreases rules@.len() - j,
    {
        if rules[j].id == id {
            proof {
                lemma_find_id_first(rule_views(rules@), id, j as int);
            }
            return Option::Some(j);
        }
        j = j + 1;
    }
    proof {
        lemma_find_id_none(rule_views(rules@), id);
    }
    Option::None
}

/// Insert one parsed rule into the arena, collapsing a duplicate id
/// in place; says whether a duplicate was collapsed.
fn insert_parsed(rules: &mut Vec<FilterRule>, rule: FilterRule) -> (dup: bool)
    ensures
        (rule_views(final(rules)@), dup) == insert_rule(rule_views(old(rules)@), rule@),
{
    let ghost rg = rule@;
    let ghost before = rule_views(rules@);
    match find_id_x(rules, rule.id) {
        Option::Some(i) => {
            proof {
                lemma_find_id_bounds(before, rule.id, i as int);
            }
            rules.remove(i);
            rules.insert(i, rule);
            proof {
                assert(rule_views(rules@) =~= before.update(i as int, rg));
            }
            true
        },
        Option::None => {
            rules.push(rule);
            proof {
                assert(rule_views(rules@) =~= before.push(rg));
            }
            false
        },
    }
}

/// Phase one of compilation: parse every line, skip non-network
/// lines, collapse duplicate ids.
#[verifier::loop_isolation(false)]
#[verifier::rlimit(100)]
fn compile_rules(lines: &Vec<Vec<u8>>) -> (r: Result<(Vec<FilterRule>, usize, usize), ParseError>)
    ensures
        match r {
            Result::Ok((rules, skipped, deduplicated)) => spec_compile(line_views(lines@))
                == Result::<CompStateG, (int, ParseReason, Seq<u8>)>::Ok(
                CompStateG {
                    rules: rule_views(rules@),
                    skipped: skipped as nat,
                    deduplicated: deduplicated as nat,
                },
            ),
            Result::Err(e) => spec_compile(line_views(lines@)) == Result::<
                CompStateG,
                (int, ParseReason, Seq<u8>),
            >::Err((e.line as int, e.reason, e.token@)),
        },
{
    let ghost lv = line_views(lines@);
    let mut rules: Vec<FilterRule> = Vec::new();
    let mut skipped: usize = 0;
    let mut deduplicated: usize = 0;
    let mut li: usize = 0;
    proof {
        assert(rule_views(rules@) =~= Seq::<RuleG>::empty());
    }
    while li < lines.len()
        invariant
            li <= lines@.len(),
            skipped <= li,
            deduplicated <= li,
            compile_upto(lv, li as int) == Result::<CompStateG, (int, ParseReason, Seq<u8>)>::Ok(
                CompStateG {
                    rules: rule_views(rules@),
                    skipped: skipped as nat,
                    deduplicated: deduplicated as nat,
                },
            ),
        decreases lines@.len() - li,
    {
        let ghost st_before = CompStateG {
            rules: rule_views(rules@),
            skipped: skipped as nat,
            deduplicated: deduplicated as nat,
        };
        match parse_line(&lines[li]) {
            LineParse::Skip => {
                skipped = skipped + 1;
            },
            LineParse::Fail(reason, token) => {
                proof {
                    assert(compile_step(st_before, lv[li as int]) == Result::<
                        CompStateG,
                        (ParseReason, Seq<u8>),
                    >::Err((reason, token@)));
                    assert(compile_upto(lv, li + 1) == Result::<
                        CompStateG,
                        (int, ParseReason, Seq<u8>),
                    >::Err((li as int, reason, token@)));
                    lemma_compile_err_propagates(lv, li + 1, lv.len() as int, (
                        li as int,
                        reason,
                        token@,
                    ));
                }
                return Result::Err(ParseError { line: li, reason, token });
            },
            LineParse::Rule(rule) => {
                let dup = insert_parsed(&mut rules, rule);
                if dup {
                    deduplicated = deduplicated + 1;
                }
                proof {
                    assert(compile_step(st_before, lv[li as int]) == Result::<
                        CompStateG,
                        (ParseReason, Seq<u8>),
                    >::Ok(
                        CompStateG {
                            rules: rule_views(rules@),
                            skipped: skipped as nat,
                            deduplicated: deduplicated as nat,
                        },
                    ));
                }
            },
        }
        li = li + 1;
    }
    Result::Ok((rules, skipped, deduplicated))
}

/// Phase two of compilation: build the buckets over the final arena.
#[verifier::loop_isolation(false)]
#[verifier::rlimit(100)]
fn build_buckets(rules: &Vec<FilterRule>) -> (r: (HashMap<u64, Vec<usize>>, Vec<usize>))
    ensures
        forall|i: int|
            0 <= i < rules@.len() ==> match find_segs_key(
                #[trigger] rules@[i]@.pattern.segments,
            ) {
                Option::Some(k) => r.0@.contains_key(k) && r.0@[k]@.contains(i as usize),
                Option::None => r.1@.contains(i as usize),
            },
        forall|k: u64|
            #[trigger] r.0@.contains_key(k) ==> forall|j: int|
                0 <= j < r.0@[k]@.len() ==> #[trigger] r.0@[k]@[j] < rules@.len(),
        forall|j: int| 0 <= j < r.1@.len() ==> #[trigger] r.1@[j] < rules@.len(),
{
    let mut buckets: HashMap<u64, Vec<usize>> = HashMap::new();
    let mut fallback: Vec<usize> = Vec::new();
    let n = rules.len();
    let mut i: usize = 0;
    while i < n
        invariant
            i <= n,
            n == rules@.len(),
            forall|t: int|
                0 <= t < i ==> match find_segs_key(#[trigger] rules@[t]@.pattern.segments) {
                    Option::Some(k) => buckets@.contains_key(k) && buckets@[k]@.contains(
                        t as usize,
                    ),
                    Option::None => fallback@.contains(t as usize),
                },
            forall|k: u64|
                #[trigger] buckets@.contains_key(k) ==> forall|j: int|
                    0 <= j < buckets@[k]@.len() ==> #[trigger] buckets@[k]@[j] < n,
            forall|j: int| 0 <= j < fallback@.len() ==> #[trigger] fallback@[j] < n,
        decreases n - i,
    {
        match find_segs_key_x(&rules[i].pattern.segments) {
            Option::None => {
                let ghost old_fb = fallback@;
                fallback.push(i);
                proof {
                    assert forall|t: int| 0 <= t < i + 1 implies match find_segs_key(
                        #[trigger] rules@[t]@.pattern.segments,
                    ) {
                        Option::Some(k2) => buckets@.contains_key(k2) && buckets@[k2]@.contains(
                            t as usize,
                        ),
                        Option::None => fallback@.contains(t as usize),
                    } by {
                        if t < i {
                            match find_segs_key(rules@[t]@.pattern.segments) {
                                Option::Some(k2) => {},
                                Option::None => {
                                    let jj = choose|jj: int|
                                        0 <= jj < old_fb.len() && old_fb[jj] == t as usize;
                                    assert(fallback@[jj] == t as usize);
                                },
                            }
                        } else {
                            assert(fallback@.last() == i as usize);
                        }
                    }
                }
            },
            Option::Some(k) => {
                let newvec: Vec<usize> = match buckets.get(&k) {
                    Option::Some(v) => {
                        let mut v2 = copy_indices(v);
                        v2.push(i);
                        v2
                    },
                    Option::None => {
                        let mut v2: Vec<usize> = Vec::new();
                        v2.push(i);
                        v2
                    },
                };
                let ghost old_buckets = buckets@;
                buckets.insert(k, newvec);
                proof {
                    assert forall|t: int| 0 <= t < i + 1 implies match find_segs_key(
                        #[trigger] rules@[t]@.pattern.segments,
                    ) {
                        Option::Some(k2) => buckets@.contains_key(k2) && buckets@[k2]@.contains(
                            t as usize,
                        ),
                        Option::None => fallback@.contains(t as usize),
                    } by {
                        if t < i {
                            match find_segs_key(rules@[t]@.pattern.segments) {
                                Option::Some(k2) => {
                                    if k2 == k {
                                        let v_old = old_buckets[k2]@;
                                        let jj = choose|jj: int|
                                            0 <= jj < v_old.len() && v_old[jj] == t as usize;
                                        assert(buckets@[k2]@[jj] == t as usize);
                                    }
                                },
                                Option::None => {},
                            }
                        } else {
                            assert(buckets@[k]@.last() == i as usize);
                        }
                    }
                }
            },
        }
        i = i + 1;
    }
    (buckets, fallback)
}

/// Compile a corpus of raw rule lines into an index, or report the
/// first malformed line.
pub fn compile(lines: &Vec<Vec<u8>>) -> (r: Result<CompiledIndex, ParseError>)
    ensures
        match r {
            Result::Ok(idx) => {
                &&& spec_compile(line_views(lines@)) matches Result::Ok(st)
                &&& st == (CompStateG {
                    rules: idx.rules_view(),
                    skipped: idx.skipped as nat,
                    deduplicated: idx.deduplicated as nat,
                })
                &&& idx.wf()
            },
            Result::Err(e) => spec_compile(line_views(lines@)) == Result::<
                CompStateG,
                (int, ParseReason, Seq<u8>),
            >::Err((e.line as int, e.reason, e.token@)),
        },
{
    match compile_rules(lines) {
        Result::Err(e) => Result::Err(e),
        Result::Ok((rules, skipped, deduplicated)) => {
            let parts = build_buckets(&rules);
            let idx = CompiledIndex {
                rules,
                buckets: parts.0,
                fallback: parts.1,
                skipped,
                deduplicated,
            };
            Result::Ok(idx)
        },
    }
}

} // verus!
