use vstd::prelude::*;

use std::collections::HashMap;

use vstd::std_specs::hash::spec_hash_map_iter;
use vstd::std_specs::iter::IteratorSpec;

use crate::evaluation::{
    BallotEvaluationResult, EvaluationView, Holder, IssueEvent, append_to, apply_events, empty_evaluation,
    issue_lists_view, record,
};
use crate::issues::{DrawIssue, IssueView, issues_view};

verus! {

broadcast use vstd::std_specs::hash::group_hash_axioms;

/// The sum of the severities of a list of issues.
pub open spec fn issues_severity(s: Seq<IssueView>) -> nat
    decreases s.len(),
{
    if s.len() == 0 {
        0
    } else {
        issues_severity(s.drop_last()) + s.last().severity as nat
    }
}

/// The step of [`lists_severity`]: adds the severity of the list at `k`.
pub open spec fn add_list_severity(m: Map<u128, Seq<IssueView>>) -> spec_fn(nat, u128) -> nat {
    |acc: nat, k: u128| acc + issues_severity(m[k])
}

/// The sum of the severities over every key of `keys`, of the list at that key.
pub open spec fn keys_severity(m: Map<u128, Seq<IssueView>>, keys: Set<u128>) -> nat {
    keys.fold(0nat, add_list_severity(m))
}

/// The sum of the severities of all issues in all lists of a map.
pub open spec fn lists_severity(m: Map<u128, Seq<IssueView>>) -> nat {
    keys_severity(m, m.dom())
}

/// The sum of the severities of all issues of an evaluation.
pub open spec fn evaluation_severity(v: EvaluationView) -> nat {
    issues_severity(v.government) + issues_severity(v.opposition) + lists_severity(v.non_aligned)
        + lists_severity(v.adjudicators)
}

proof fn lemma_step_commutes(m: Map<u128, Seq<IssueView>>)
    ensures
        vstd::set::fold::is_fun_commutative(add_list_severity(m)),
{
}

proof fn lemma_keys_insert(m: Map<u128, Seq<IssueView>>, s: Set<u128>, k: u128)
    requires
        s.finite(),
        !s.contains(k),
    ensures
        keys_severity(m, s.insert(k)) == keys_severity(m, s) + issues_severity(m[k]),
{
    lemma_step_commutes(m);
    vstd::set::fold::lemma_fold_insert(s, 0nat, add_list_severity(m), k);
}

proof fn lemma_keys_subset(m: Map<u128, Seq<IssueView>>, s: Set<u128>, t: Set<u128>)
    requires
        t.finite(),
        s.subset_of(t),
    ensures
        keys_severity(m, s) <= keys_severity(m, t),
    decreases t.len(),
{
    if s =~= t {
    } else {
        let a = choose|a: u128| t.contains(a) && !s.contains(a);
        let r = t.remove(a);
        lemma_keys_subset(m, s, r);
        lemma_keys_insert(m, r, a);
        assert(r.insert(a) =~= t);
    }
}

/// Sums the severities of a list of issues.
fn list_severity(l: &Vec<DrawIssue>) -> (r: u64)
    requires
        issues_severity(issues_view(l@)) <= u64::MAX,
    ensures
        r == issues_severity(issues_view(l@)),
{
    let mut acc: u64 = 0;
    let mut i: usize = 0;
    while i < l.len()
        invariant
            i <= l.len(),
            issues_severity(issues_view(l@)) <= u64::MAX,
            acc == issues_severity(issues_view(l@.take(i as int))),
        decreases l.len() - i,
    {
        proof {
            assert(issues_view(l@.take(i + 1)).drop_last() =~= issues_view(l@.take(i as int)));
            lemma_prefix_le(issues_view(l@), i + 1);
            assert(issues_view(l@.take(i + 1)) =~= issues_view(l@).take(i + 1));
        }
        acc = acc + l[i].severity as u64;
        i = i + 1;
    }
    assert(l@.take(l.len() as int) =~= l@);
    acc
}

proof fn lemma_prefix_le(s: Seq<IssueView>, n: int)
    requires
        0 <= n <= s.len(),
    ensures
        issues_severity(s.take(n)) <= issues_severity(s),
    decreases s.len(),
{
    if n < s.len() {
        assert(s.drop_last().take(n) =~= s.take(n));
        lemma_prefix_le(s.drop_last(), n);
    } else {
        assert(s.take(n) =~= s);
    }
}

/// Sums the severities over all lists of a map of issue lists.
fn map_severity(m: &HashMap<u128, Vec<DrawIssue>>) -> (r: u64)
    requires
        lists_severity(issue_lists_view(m@)) <= u32::MAX,
    ensures
        r == lists_severity(issue_lists_view(m@)),
{
    let ghost mv = issue_lists_view(m@);
    let iter = m.iter();
    let ghost s = iter.remaining();
    let ghost ks = s.map_values(|p: (&u128, &Vec<DrawIssue>)| *p.0);
    proof {
        assert(s.no_duplicates());
        assert forall|i: int, j: int| 0 <= i < j < ks.len() implies ks[i] != ks[j] by {
            assert(ks[i] == *s[i].0 && ks[j] == *s[j].0);
            assert(m@.contains_key(*s[i].0) && m@.contains_key(*s[j].0));
            if ks[i] == ks[j] {
                assert(s[i] == s[j]);
            }
        }
        assert forall|i: int| 0 <= i < s.len() implies m@.contains_key(#[trigger] ks[i]) && m@[ks[i]] == *s[i].1 by {
            assert(ks[i] == *s[i].0);
            assert(m@.contains_key(*s[i].0));
        }
        assert forall|k: u128| mv.dom().contains(k) implies ks.to_set().contains(k) by {
            assert(s.contains((&k, &m@[k])));
            let i = choose|i: int| 0 <= i < s.len() && s[i] == (&k, &m@[k]);
            assert(ks[i] == k);
        }
        assert(ks.to_set() =~= mv.dom());
        vstd::seq_lib::seq_to_set_is_finite(ks);
        assert(ks.take(0).to_set() =~= Set::<u128>::empty());
        vstd::set::fold::lemma_fold_empty(0nat, add_list_severity(mv));
    }
    let mut acc: u64 = 0;
    for kv in it: iter
        invariant
            it.seq() == s,
            s.len() == m@.dom().len(),
            ks == s.map_values(|p: (&u128, &Vec<DrawIssue>)| *p.0),
            forall|i: int, j: int| 0 <= i < j < ks.len() ==> ks[i] != ks[j],
            forall|i: int| 0 <= i < s.len() ==> m@.contains_key(#[trigger] ks[i]) && m@[ks[i]] == *s[i].1,
            mv == issue_lists_view(m@),
            ks.to_set() == mv.dom(),
            mv.dom().finite(),
            lists_severity(mv) <= u32::MAX,
            acc == keys_severity(mv, ks.take(it.index()).to_set()),
    {
        let (k, v) = kv;
        let ghost i = it.index();
        proof {
            assert(ks[i] == *k);
            let pre = ks.take(i);
            let cur = ks.take(i + 1);
            let prev = pre.to_set();
            assert forall|x: u128| cur.to_set().contains(x) <==> #[trigger] prev.insert(*k).contains(x) by {
                if cur.to_set().contains(x) {
                    let j = choose|j: int| 0 <= j < i + 1 && cur[j] == x;
                    if j < i {
                        assert(pre[j] == x);
                    }
                }
                if prev.contains(x) {
                    let j = choose|j: int| 0 <= j < i && pre[j] == x;
                    assert(cur[j] == x);
                }
                if x == *k {
                    assert(cur[i] == x);
                }
            }
            assert(cur.to_set() =~= prev.insert(*k));
            assert(!prev.contains(*k)) by {
                if prev.contains(*k) {
                    let j = choose|j: int| 0 <= j < i && pre[j] == *k;
                    assert(ks[j] == ks[i]);
                }
            }
            vstd::seq_lib::seq_to_set_is_finite(pre);
            lemma_keys_insert(mv, prev, *k);
            assert(mv[*k] == issues_view(v@));
            assert forall|x: u128| cur.to_set().contains(x) implies mv.dom().contains(x) by {
                let j = choose|j: int| 0 <= j < i + 1 && cur[j] == x;
                assert(ks[j] == x);
                assert(ks.to_set().contains(ks[j]));
            }
            lemma_keys_subset(mv, cur.to_set(), mv.dom());
        }
        let part = list_severity(v);
        acc = acc + part;
    }
    proof {
        assert(ks.take(s.len() as int) =~= ks);
    }
    acc
}

impl BallotEvaluationResult {
    /// The sum of the severities of all issues in this result.
    pub fn total_severity(&self) -> (r: u32)
        requires
            evaluation_severity(self.view()) <= u32::MAX,
        ensures
            r == evaluation_severity(self.view()),
    {
        let g = list_severity(&self.government_issues);
        let o = list_severity(&self.opposition_issues);
        let n = map_severity(&self.non_aligned_issues);
        let a = map_severity(&self.adjudicator_issues);
        (g + o + n + a) as u32
    }
}

/// The sum of the severities of the issues of the events.
pub open spec fn events_severity(es: Seq<IssueEvent>) -> nat
    decreases es.len(),
{
    if es.len() == 0 {
        0
    } else {
        events_severity(es.drop_last()) + es.last().issue.severity as nat
    }
}

proof fn lemma_keys_agree(m1: Map<u128, Seq<IssueView>>, m2: Map<u128, Seq<IssueView>>, d: Set<u128>)
    requires
        d.finite(),
        forall|k: u128| d.contains(k) ==> m1[k] == m2[k],
    ensures
        keys_severity(m1, d) == keys_severity(m2, d),
    decreases d.len(),
{
    if d.len() == 0 {
        assert(d =~= Set::<u128>::empty());
        vstd::set::fold::lemma_fold_empty(0nat, add_list_severity(m1));
        vstd::set::fold::lemma_fold_empty(0nat, add_list_severity(m2));
    } else {
        let a = d.choose();
        let r = d.remove(a);
        lemma_keys_agree(m1, m2, r);
        assert(r.insert(a) =~= d);
        lemma_keys_insert(m1, r, a);
        lemma_keys_insert(m2, r, a);
    }
}

proof fn lemma_push_severity(s: Seq<IssueView>, x: IssueView)
    ensures
        issues_severity(s.push(x)) == issues_severity(s) + x.severity,
{
    assert(s.push(x).drop_last() =~= s);
}

proof fn lemma_append_severity(m: Map<u128, Seq<IssueView>>, k: u128, x: IssueView)
    requires
        m.dom().finite(),
    ensures
        append_to(m, k, x).dom().finite(),
        lists_severity(append_to(m, k, x)) == lists_severity(m) + x.severity,
{
    let m2 = append_to(m, k, x);
    if m.contains_key(k) {
        let d = m.dom().remove(k);
        assert(m2.dom() =~= m.dom());
        assert(d.insert(k) =~= m.dom());
        lemma_keys_agree(m, m2, d);
        lemma_keys_insert(m, d, k);
        lemma_keys_insert(m2, d, k);
        lemma_push_severity(m[k], x);
    } else {
        assert(m2.dom() =~= m.dom().insert(k));
        lemma_keys_agree(m, m2, m.dom());
        lemma_keys_insert(m2, m.dom(), k);
        lemma_push_severity(Seq::empty(), x);
        assert(Seq::<IssueView>::empty().push(x) =~= seq![x]);
    }
}

proof fn lemma_record_severity(v: EvaluationView, e: IssueEvent)
    requires
        v.non_aligned.dom().finite(),
        v.adjudicators.dom().finite(),
    ensures
        record(v, e).non_aligned.dom().finite(),
        record(v, e).adjudicators.dom().finite(),
        evaluation_severity(record(v, e)) == evaluation_severity(v) + e.issue.severity,
{
    match e.holder {
        Holder::Government => lemma_push_severity(v.government, e.issue),
        Holder::Opposition => lemma_push_severity(v.opposition, e.issue),
        Holder::NonAligned(k) => lemma_append_severity(v.non_aligned, k, e.issue),
        Holder::Adjudicator(k) => lemma_append_severity(v.adjudicators, k, e.issue),
    }
}

proof fn lemma_apply_severity(es: Seq<IssueEvent>)
    ensures
        apply_events(empty_evaluation(), es).non_aligned.dom().finite(),
        apply_events(empty_evaluation(), es).adjudicators.dom().finite(),
        evaluation_severity(apply_events(empty_evaluation(), es)) == events_severity(es),
    decreases es.len(),
{
    if es.len() == 0 {
        let v = empty_evaluation();
        assert(v.non_aligned.dom() =~= Set::<u128>::empty());
        assert(v.adjudicators.dom() =~= Set::<u128>::empty());
        vstd::set::fold::lemma_fold_empty(0nat, add_list_severity(v.non_aligned));
        vstd::set::fold::lemma_fold_empty(0nat, add_list_severity(v.adjudicators));
    } else {
        lemma_apply_severity(es.drop_last());
        lemma_record_severity(apply_events(empty_evaluation(), es.drop_last()), es.last());
    }
}

/// The total severity of the issues found by recording events is the sum of
/// the severities of the events' issues: recording an issue never loses or
/// counts twice its severity, whoever holds it.
pub proof fn law_total_severity_sums_recorded_issues(es: Seq<IssueEvent>)
    ensures
        evaluation_severity(apply_events(empty_evaluation(), es)) == events_severity(es),
{
    lemma_apply_severity(es);
}

/// Sums the severities of a list of issues, giving up once the sum passes `cap`.
fn list_severity_upto(l: &Vec<DrawIssue>, cap: u64) -> (r: Option<u64>)
    requires
        cap <= u32::MAX,
    ensures
        r == (if issues_severity(issues_view(l@)) <= cap { Some(issues_severity(issues_view(l@)) as u64) } else { None }),
{
    let mut acc: u64 = 0;
    let mut i: usize = 0;
    while i < l.len()
        invariant
            i <= l.len(),
            cap <= u32::MAX,
            acc <= cap,
            acc == issues_severity(issues_view(l@.take(i as int))),
        decreases l.len() - i,
    {
        proof {
            assert(issues_view(l@.take(i + 1)).drop_last() =~= issues_view(l@.take(i as int)));
            lemma_prefix_le(issues_view(l@), i + 1);
            assert(issues_view(l@.take(i + 1)) =~= issues_view(l@).take(i + 1));
        }
        acc = acc + l[i].severity as u64;
        i = i + 1;
        if acc > cap {
            return None;
        }
    }
    assert(l@.take(l.len() as int) =~= l@);
    Some(acc)
}

/// Sums the severities over all lists of a map, giving up once the sum passes `cap`.
fn map_severity_upto(m: &HashMap<u128, Vec<DrawIssue>>, cap: u64) -> (r: Option<u64>)
    requires
        cap <= u32::MAX,
    ensures
        r == (if lists_severity(issue_lists_view(m@)) <= cap {
            Some(lists_severity(issue_lists_view(m@)) as u64)
        } else {
            None
        }),
{
    let ghost mv = issue_lists_view(m@);
    let iter = m.iter();
    let ghost s = iter.remaining();
    let ghost ks = s.map_values(|p: (&u128, &Vec<DrawIssue>)| *p.0);
    proof {
        assert(s.no_duplicates());
        assert forall|i: int, j: int| 0 <= i < j < ks.len() implies ks[i] != ks[j] by {
            assert(ks[i] == *s[i].0 && ks[j] == *s[j].0);
            assert(m@.contains_key(*s[i].0) && m@.contains_key(*s[j].0));
            if ks[i] == ks[j] {
                assert(s[i] == s[j]);
            }
        }
        assert forall|i: int| 0 <= i < s.len() implies m@.contains_key(#[trigger] ks[i]) && m@[ks[i]] == *s[i].1 by {
            assert(ks[i] == *s[i].0);
            assert(m@.contains_key(*s[i].0));
        }
        assert forall|k: u128| mv.dom().contains(k) implies ks.to_set().contains(k) by {
            assert(s.contains((&k, &m@[k])));
            let i = choose|i: int| 0 <= i < s.len() && s[i] == (&k, &m@[k]);
            assert(ks[i] == k);
        }
        assert(ks.to_set() =~= mv.dom());
        vstd::seq_lib::seq_to_set_is_finite(ks);
        assert(ks.take(0).to_set() =~= Set::<u128>::empty());
        vstd::set::fold::lemma_fold_empty(0nat, add_list_severity(mv));
    }
    let mut acc: u64 = 0;
    for kv in it: iter
        invariant
            it.seq() == s,
            s.len() == m@.dom().len(),
            ks == s.map_values(|p: (&u128, &Vec<DrawIssue>)| *p.0),
            forall|i: int, j: int| 0 <= i < j < ks.len() ==> ks[i] != ks[j],
            forall|i: int| 0 <= i < s.len() ==> m@.contains_key(#[trigger] ks[i]) && m@[ks[i]] == *s[i].1,
            mv == issue_lists_view(m@),
            ks.to_set() == mv.dom(),
            mv.dom().finite(),
            cap <= u32::MAX,
            acc <= cap,
            acc == keys_severity(mv, ks.take(it.index()).to_set()),
    {
        let (k, v) = kv;
        let ghost i = it.index();
        proof {
            assert(ks[i] == *k);
            let pre = ks.take(i);
            let cur = ks.take(i + 1);
            let prev = pre.to_set();
            assert forall|x: u128| cur.to_set().contains(x) <==> #[trigger] prev.insert(*k).contains(x) by {
                if cur.to_set().contains(x) {
                    let j = choose|j: int| 0 <= j < i + 1 && cur[j] == x;
                    if j < i {
                        assert(pre[j] == x);
                    }
                }
                if prev.contains(x) {
                    let j = choose|j: int| 0 <= j < i && pre[j] == x;
                    assert(cur[j] == x);
                }
                if x == *k {
                    assert(cur[i] == x);
                }
            }
            assert(cur.to_set() =~= prev.insert(*k));
            assert(!prev.contains(*k)) by {
                if prev.contains(*k) {
                    let j = choose|j: int| 0 <= j < i && pre[j] == *k;
                    assert(ks[j] == ks[i]);
                }
            }
            vstd::seq_lib::seq_to_set_is_finite(pre);
            lemma_keys_insert(mv, prev, *k);
            assert(mv[*k] == issues_view(v@));
            assert forall|x: u128| cur.to_set().contains(x) implies mv.dom().contains(x) by {
                let j = choose|j: int| 0 <= j < i + 1 && cur[j] == x;
                assert(ks[j] == x);
                assert(ks.to_set().contains(ks[j]));
            }
            lemma_keys_subset(mv, cur.to_set(), mv.dom());
        }
        match list_severity_upto(v, cap) {
            None => {
                return None;
            },
            Some(part) => {
                acc = acc + part;
                if acc > cap {
                    return None;
                }
            },
        }
    }
    proof {
        assert(ks.take(s.len() as int) =~= ks);
    }
    Some(acc)
}

impl BallotEvaluationResult {
    /// The sum of the severities of all issues in this result, where it fits
    /// in 32 bits; none where it does not.
    pub fn checked_total_severity(&self) -> (r: Option<u32>)
        ensures
            r == (if evaluation_severity(self.view()) <= u32::MAX {
                Some(evaluation_severity(self.view()) as u32)
            } else {
                None
            }),
    {
        let cap: u64 = 0xffff_ffff;
        let g = match list_severity_upto(&self.government_issues, cap) {
            Some(x) => x,
            None => return None,
        };
        let o = match list_severity_upto(&self.opposition_issues, cap) {
            Some(x) => x,
            None => return None,
        };
        let n = match map_severity_upto(&self.non_aligned_issues, cap) {
            Some(x) => x,
            None => return None,
        };
        let a = match map_severity_upto(&self.adjudicator_issues, cap) {
            Some(x) => x,
            None => return None,
        };
        let total = g + o + n + a;
        if total > cap {
            None
        } else {
            Some(total as u32)
        }
    }
}

} // verus!
