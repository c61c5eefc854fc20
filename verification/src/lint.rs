//! Rules and the match/classification engine.
//!
//! A `Rule` names a primary pattern plus optional `required`, `forbidden` and
//! `ignore` companion patterns.  Over one file's text the engine finds every
//! candidate match of the primary pattern, suppresses candidates that start
//! inside an ignore span, validates the rest against the companions anchored
//! exactly at the candidate's start, and emits one classified match each.

use vstd::prelude::*;

verus! {

use crate::pattern::{Pattern, find_all_of, find_at_of, valid_pattern};
use vstd::string::StringExecFns;
use vstd::utf8::encode_utf8;

/// Classification of one candidate match.
#[derive(Debug, PartialEq, Eq, Structural, Clone, Copy)]
pub enum CheckedState {
    Pass,
    Fail,
    Skip,
}

/// One classified match: a half-open byte span `[beg, end)` of a file's text,
/// its state, and everything needed to render it later.
#[derive(Debug, PartialEq)]
pub struct Checked {
    pub path: String,
    pub beg: usize,
    pub end: usize,
    pub state: CheckedState,
    pub name: String,
    pub hint: String,
}

/// The mathematical value of a `Checked`.
#[verifier::ext_equal]
pub ghost struct CheckedView {
    pub path: Seq<char>,
    pub beg: int,
    pub end: int,
    pub state: CheckedState,
    pub name: Seq<char>,
    pub hint: Seq<char>,
}

impl View for Checked {
    type V = CheckedView;

    open spec fn view(&self) -> CheckedView {
        CheckedView {
            path: self.path@,
            beg: self.beg as int,
            end: self.end as int,
            state: self.state,
            name: self.name@,
            hint: self.hint@,
        }
    }
}

pub open spec fn views_of(s: Seq<Checked>) -> Seq<CheckedView> {
    s.map_values(|c: Checked| c@)
}

/// The mathematical value of a `Rule`: each pattern stands as its source text.
#[verifier::ext_equal]
pub ghost struct RuleView {
    pub name: Seq<char>,
    pub pattern: Seq<char>,
    pub required: Option<Seq<char>>,
    pub forbidden: Option<Seq<char>>,
    pub ignore: Option<Seq<char>>,
    pub hint: Seq<char>,
    pub globs: Seq<Seq<char>>,
}

/// A named pattern with optional companions, a hint shown on failure, and the
/// glob patterns naming the files it applies to.
pub struct Rule {
    pub name: String,
    pub pattern: Pattern,
    pub required: Option<Pattern>,
    pub forbidden: Option<Pattern>,
    pub ignore: Option<Pattern>,
    pub hint: String,
    pub globs: Vec<String>,
}

pub open spec fn opt_pattern_view(o: Option<Pattern>) -> Option<Seq<char>> {
    match o {
        Some(p) => Some(p@),
        None => None,
    }
}

pub open spec fn strings_view(s: Seq<String>) -> Seq<Seq<char>> {
    s.map_values(|g: String| g@)
}

impl View for Rule {
    type V = RuleView;

    open spec fn view(&self) -> RuleView {
        RuleView {
            name: self.name@,
            pattern: self.pattern@,
            required: opt_pattern_view(self.required),
            forbidden: opt_pattern_view(self.forbidden),
            ignore: opt_pattern_view(self.ignore),
            hint: self.hint@,
            globs: strings_view(self.globs@),
        }
    }
}

/// An ordered list of rules; a run evaluates them in order.
pub struct RuleSet {
    pub rules: Vec<Rule>,
}

impl View for RuleSet {
    type V = Seq<RuleView>;

    open spec fn view(&self) -> Seq<RuleView> {
        self.rules@.map_values(|r: Rule| r@)
    }
}

/// Whether byte offset `s` lies inside some ignore span (each span is
/// half-open, and only the candidate's start offset is tested).
pub open spec fn in_ignore(ignore: Seq<(usize, usize)>, s: usize) -> bool {
    exists|j: int| 0 <= j < ignore.len() && (#[trigger] ignore[j]).0 <= s < ignore[j].1
}

/// The `required` test: if a required pattern is set, the search that starts
/// at the candidate's start must produce a match anchored exactly there.
pub open spec fn required_ok(required: Option<Seq<char>>, src: Seq<char>, s: usize) -> bool {
    match required {
        Some(p) => match find_at_of(p, src, s) {
            Some(m) => m.0 == s,
            None => false,
        },
        None => true,
    }
}

/// The `forbidden` test: if a forbidden pattern is set, the search that
/// starts at the candidate's start must not produce a match anchored exactly
/// there.
pub open spec fn forbidden_ok(forbidden: Option<Seq<char>>, src: Seq<char>, s: usize) -> bool {
    match forbidden {
        Some(p) => match find_at_of(p, src, s) {
            Some(m) => m.0 != s,
            None => true,
        },
        None => true,
    }
}

/// The state of a candidate starting at byte offset `s`: suppression by an
/// ignore span dominates; otherwise both companion tests must hold.
pub open spec fn classify(
    rule: RuleView,
    src: Seq<char>,
    ignore: Seq<(usize, usize)>,
    s: usize,
) -> CheckedState {
    if in_ignore(ignore, s) {
        CheckedState::Skip
    } else if required_ok(rule.required, src, s) && forbidden_ok(rule.forbidden, src, s) {
        CheckedState::Pass
    } else {
        CheckedState::Fail
    }
}

/// The ignore spans of a rule over one text: all matches of the ignore
/// pattern, or none when the rule has no ignore pattern.
pub open spec fn spec_ignore(rule: RuleView, src: Seq<char>) -> Seq<(usize, usize)> {
    match rule.ignore {
        Some(p) => find_all_of(p, src),
        None => Seq::empty(),
    }
}

/// The classified match that one candidate `m` of `rule` over `src` yields.
pub open spec fn checked_of(
    rule: RuleView,
    path: Seq<char>,
    src: Seq<char>,
    ignore: Seq<(usize, usize)>,
    m: (usize, usize),
) -> CheckedView {
    CheckedView {
        path: path,
        beg: m.0 as int,
        end: m.1 as int,
        state: classify(rule, src, ignore, m.0),
        name: rule.name,
        hint: rule.hint,
    }
}

/// All classified matches of `rule` over `src`, against the given ignore
/// spans, in candidate-scan order.
pub open spec fn spec_checked(
    rule: RuleView,
    path: Seq<char>,
    src: Seq<char>,
    ignore: Seq<(usize, usize)>,
) -> Seq<CheckedView> {
    find_all_of(rule.pattern, src).map_values(
        |m: (usize, usize)| checked_of(rule, path, src, ignore, m),
    )
}

/// All classified matches of `rule` over one file, with the rule's own
/// ignore spans.
pub open spec fn spec_check_file(rule: RuleView, path: Seq<char>, src: Seq<char>) -> Seq<
    CheckedView,
> {
    spec_checked(rule, path, src, spec_ignore(rule, src))
}

pub open spec fn file_views(files: Seq<(String, String)>) -> Seq<(Seq<char>, Seq<char>)> {
    files.map_values(|f: (String, String)| (f.0@, f.1@))
}

/// All classified matches of `rule` over a list of files, in file order.
pub open spec fn spec_check_rule(rule: RuleView, files: Seq<(Seq<char>, Seq<char>)>) -> Seq<
    CheckedView,
> decreases files.len() {
    if files.len() == 0 {
        Seq::empty()
    } else {
        spec_check_rule(rule, files.drop_last()) + spec_check_file(
            rule,
            files.last().0,
            files.last().1,
        )
    }
}

pub open spec fn rules_files_views(files: Seq<Vec<(String, String)>>) -> Seq<
    Seq<(Seq<char>, Seq<char>)>,
> {
    files.map_values(|v: Vec<(String, String)>| file_views(v@))
}

/// All classified matches of a whole run: rule-major, then file order, then
/// candidate-scan order.
pub open spec fn spec_check(rules: Seq<RuleView>, files: Seq<Seq<(Seq<char>, Seq<char>)>>) -> Seq<
    CheckedView,
> decreases rules.len() {
    if rules.len() == 0 {
        Seq::empty()
    } else {
        spec_check(rules.drop_last(), files.drop_last()) + spec_check_rule(
            rules.last(),
            files.last(),
        )
    }
}

impl Rule {
    /// Builds a rule from pattern texts, compiling each; succeeds exactly
    /// when every given pattern is a valid regular expression.
    pub fn new(
        name: String,
        pattern: &str,
        required: Option<&str>,
        forbidden: Option<&str>,
        ignore: Option<&str>,
        hint: String,
        globs: Vec<String>,
    ) -> (r: Result<Rule, String>)
        ensures
            r.is_ok() <==> (valid_pattern(pattern@) && (required matches Some(s) ==>
                valid_pattern(s@)) && (forbidden matches Some(s) ==> valid_pattern(s@)) && (
            ignore matches Some(s) ==> valid_pattern(s@))),
            r matches Ok(rule) ==> rule@ == (RuleView {
                name: name@,
                pattern: pattern@,
                required: (match required {
                    Some(s) => Some(s@),
                    None => None,
                }),
                forbidden: (match forbidden {
                    Some(s) => Some(s@),
                    None => None,
                }),
                ignore: (match ignore {
                    Some(s) => Some(s@),
                    None => None,
                }),
                hint: hint@,
                globs: strings_view(globs@),
            }),
    {
        let pattern = match Pattern::compile(pattern) {
            Ok(p) => p,
            Err(e) => return Err(e),
        };
        let required = match required {
            Some(s) => match Pattern::compile(s) {
                Ok(p) => Some(p),
                Err(e) => return Err(e),
            },
            None => None,
        };
        let forbidden = match forbidden {
            Some(s) => match Pattern::compile(s) {
                Ok(p) => Some(p),
                Err(e) => return Err(e),
            },
            None => None,
        };
        let ignore = match ignore {
            Some(s) => match Pattern::compile(s) {
                Ok(p) => Some(p),
                Err(e) => return Err(e),
            },
            None => None,
        };
        Ok(Rule { name, pattern, required, forbidden, ignore, hint, globs })
    }

    /// All ignore spans of this rule over `src`, in scan order.
    pub fn gen_ignore(&self, src: &str) -> (r: Vec<(usize, usize)>)
        ensures
            r@ == spec_ignore(self@, src@),
    {
        match &self.ignore {
            Some(p) => p.find_all(src),
            None => Vec::new(),
        }
    }

    /// Classifies every candidate match of this rule's pattern over `src`
    /// against the given ignore spans, in candidate-scan order.  Every
    /// emitted span satisfies `beg <= end` and lies within the text.
    pub fn gen_checked(&self, path: &str, src: &str, ignore: &Vec<(usize, usize)>) -> (r: Vec<
        Checked,
    >)
        ensures
            views_of(r@) == spec_checked(self@, path@, src@, ignore@),
            forall|i: int|
                0 <= i < r@.len() ==> (#[trigger] r@[i]).beg <= r@[i].end <= encode_utf8(
                    src@,
                ).len(),
    {
        let cands = self.pattern.find_all(src);
        let mut r: Vec<Checked> = Vec::new();
        let ghost target = spec_checked(self@, path@, src@, ignore@);
        proof {
            assert(target.len() == cands@.len());
        }
        let mut idx: usize = 0;
        while idx < cands.len()
            invariant
                idx <= cands.len(),
                cands@ == find_all_of(self@.pattern, src@),
                forall|i: int|
                    0 <= i < cands@.len() ==> (#[trigger] cands@[i]).0 <= cands@[i].1
                        <= encode_utf8(src@).len(),
                target == spec_checked(self@, path@, src@, ignore@),
                target.len() == cands@.len(),
                views_of(r@) =~= target.take(idx as int),
                r@.len() == idx,
                forall|i: int|
                    0 <= i < r@.len() ==> (#[trigger] r@[i]).beg <= r@[i].end <= encode_utf8(
                        src@,
                    ).len(),
            decreases cands.len() - idx,
        {
            let m = cands[idx];
            let s = m.0;
            let e = m.1;

            let mut skip = false;
            let mut j: usize = 0;
            while j < ignore.len()
                invariant
                    j <= ignore.len(),
                    skip == exists|k: int|
                        0 <= k < j && (#[trigger] ignore@[k]).0 <= s < ignore@[k].1,
                decreases ignore.len() - j,
            {
                let span = ignore[j];
                if span.0 <= s && s < span.1 {
                    skip = true;
                }
                j += 1;
            }
            proof {
                assert(skip == in_ignore(ignore@, s));
            }

            let mut pass = true;
            if !skip {
                if let Some(p) = &self.required {
                    pass = match p.find_from(src, s) {
                        Some(f) => f.0 == s,
                        None => false,
                    };
                }
                proof {
                    assert(pass == required_ok(self@.required, src@, s));
                }
                if let Some(p) = &self.forbidden {
                    let forb = match p.find_from(src, s) {
                        Some(f) => f.0 != s,
                        None => true,
                    };
                    pass = pass && forb;
                }
                proof {
                    assert(pass == (required_ok(self@.required, src@, s) && forbidden_ok(
                        self@.forbidden,
                        src@,
                        s,
                    )));
                }
            }

            let state = if skip {
                CheckedState::Skip
            } else if pass {
                CheckedState::Pass
            } else {
                CheckedState::Fail
            };

            let checked = Checked {
                path: String::from_str(path),
                beg: s,
                end: e,
                state,
                name: self.name.clone(),
                hint: self.hint.clone(),
            };
            proof {
                assert(checked@ == checked_of(self@, path@, src@, ignore@, cands@[idx as int]));
                assert(target[idx as int] == checked_of(
                    self@,
                    path@,
                    src@,
                    ignore@,
                    cands@[idx as int],
                ));
                assert(views_of(r@.push(checked)) =~= views_of(r@).push(checked@));
                assert(target.take(idx as int).push(target[idx as int]) =~= target.take(
                    idx as int + 1,
                ));
            }
            r.push(checked);
            idx += 1;
        }
        proof {
            assert(views_of(r@) =~= target);
        }
        r
    }

    /// Evaluates this rule over a list of files, each given as a path and
    /// the file's text, concatenating the per-file matches in file order.
    pub fn check(&self, files: &Vec<(String, String)>) -> (r: Vec<Checked>)
        ensures
            views_of(r@) == spec_check_rule(self@, file_views(files@)),
            forall|k: int| 0 <= k < r@.len() ==> (#[trigger] r@[k]).beg <= r@[k].end,
    {
        let mut r: Vec<Checked> = Vec::new();
        let mut i: usize = 0;
        while i < files.len()
            invariant
                i <= files.len(),
                views_of(r@) =~= spec_check_rule(self@, file_views(files@).take(i as int)),
                forall|k: int| 0 <= k < r@.len() ==> (#[trigger] r@[k]).beg <= r@[k].end,
            decreases files.len() - i,
        {
            let file = &files[i];
            let ignore = self.gen_ignore(file.1.as_str());
            let mut checked = self.gen_checked(file.0.as_str(), file.1.as_str(), &ignore);
            proof {
                let fi = files@[i as int];
                assert(views_of(checked@) == spec_check_file(self@, fi.0@, fi.1@));
                assert(views_of(r@ + checked@) =~= views_of(r@) + views_of(checked@));
                let fv = file_views(files@);
                assert(fv.take(i as int + 1).drop_last() =~= fv.take(i as int));
                assert(fv.take(i as int + 1).last() == fv[i as int]);
            }
            r.append(&mut checked);
            i += 1;
        }
        proof {
            assert(file_views(files@).take(files@.len() as int) =~= file_views(files@));
        }
        r
    }
}

impl RuleSet {
    /// Evaluates every rule in declaration order; `files[i]` lists the files
    /// (path and text) that the globs of rule `i` named, in enumeration
    /// order.  The result is the run-wide flat match list, rule-major.
    pub fn check(&self, files: &Vec<Vec<(String, String)>>) -> (r: Vec<Checked>)
        requires
            files@.len() == self.rules@.len(),
        ensures
            views_of(r@) == spec_check(self@, rules_files_views(files@)),
            forall|k: int| 0 <= k < r@.len() ==> (#[trigger] r@[k]).beg <= r@[k].end,
    {
        let mut r: Vec<Checked> = Vec::new();
        let mut i: usize = 0;
        while i < self.rules.len()
            invariant
                i <= self.rules.len(),
                files@.len() == self.rules@.len(),
                views_of(r@) =~= spec_check(self@.take(i as int), rules_files_views(files@).take(
                    i as int,
                )),
                forall|k: int| 0 <= k < r@.len() ==> (#[trigger] r@[k]).beg <= r@[k].end,
            decreases self.rules.len() - i,
        {
            let mut checked = self.rules[i].check(&files[i]);
            proof {
                let rv = self@;
                let fv = rules_files_views(files@);
                assert(views_of(r@ + checked@) =~= views_of(r@) + views_of(checked@));
                assert(rv.take(i as int + 1).drop_last() =~= rv.take(i as int));
                assert(fv.take(i as int + 1).drop_last() =~= fv.take(i as int));
                assert(rv.take(i as int + 1).last() == rv[i as int]);
                assert(fv.take(i as int + 1).last() == fv[i as int]);
            }
            r.append(&mut checked);
            i += 1;
        }
        proof {
            assert(self@.take(self@.len() as int) =~= self@);
            assert(rules_files_views(files@).take(self@.len() as int) =~= rules_files_views(
                files@,
            ));
        }
        r
    }
}

/// Suppression dominates: a candidate whose start lies inside any ignore
/// span is classified `Skip`, whatever the companion tests would say.
pub proof fn lemma_ignore_dominates(
    rule: RuleView,
    src: Seq<char>,
    ignore: Seq<(usize, usize)>,
    s: usize,
)
    requires
        in_ignore(ignore, s),
    ensures
        classify(rule, src, ignore, s) == CheckedState::Skip,
{
}

/// A rule with neither `required` nor `forbidden` classifies every
/// non-suppressed candidate as `Pass`.
pub proof fn lemma_no_companions_pass(
    rule: RuleView,
    src: Seq<char>,
    ignore: Seq<(usize, usize)>,
    s: usize,
)
    requires
        rule.required is None,
        rule.forbidden is None,
        !in_ignore(ignore, s),
    ensures
        classify(rule, src, ignore, s) == CheckedState::Pass,
{
}

/// Evaluating an unchanged rule set over unchanged file contents is
/// deterministic: any two run-wide match lists that the evaluator's
/// contract admits for the same inputs are identical.
pub proof fn lemma_evaluator_deterministic(
    rules: Seq<RuleView>,
    files: Seq<Seq<(Seq<char>, Seq<char>)>>,
    r1: Seq<CheckedView>,
    r2: Seq<CheckedView>,
)
    requires
        r1 == spec_check(rules, files),
        r2 == spec_check(rules, files),
    ensures
        r1 == r2,
{
}

} // verus!
