use crate::classify::{key_of, status_of, triage, probed, Decision, Outcome, Status};
use vstd::prelude::*;
use vstd::seq_lib::lemma_multiset_commutative;
use vstd::seq_lib::to_multiset_build;
use vstd::seq_lib::to_multiset_len;
use vstd::string::*;

verus! {

// ---------- ordering outcomes by sort key ----------

/// Ascending by sort key.
pub open spec fn sorted_by_key(s: Seq<Outcome>) -> bool {
    forall|i: int, j: int| 0 <= i <= j < s.len() ==> s[i].key <= s[j].key
}

/// The first position whose entry's key exceeds `k`: where a stable sort
/// inserts an entry with key `k`, after every earlier entry with an equal
/// key.
pub open spec fn insert_pos(s: Seq<Outcome>, k: u32) -> int
    decreases s.len(),
{
    if s.len() == 0 {
        0
    } else if s[0].key <= k {
        1 + insert_pos(s.drop_first(), k)
    } else {
        0
    }
}

proof fn lemma_insert_pos_bounds(s: Seq<Outcome>, k: u32)
    ensures
        0 <= insert_pos(s, k) <= s.len(),
        forall|j: int| 0 <= j < insert_pos(s, k) ==> s[j].key <= k,
        insert_pos(s, k) < s.len() ==> s[insert_pos(s, k)].key > k,
    decreases s.len(),
{
    if s.len() > 0 {
        lemma_insert_pos_bounds(s.drop_first(), k);
        if s[0].key <= k {
            assert forall|j: int| 0 <= j < insert_pos(s, k) implies s[j].key <= k by {
                if j > 0 {
                    assert(s.drop_first()[j - 1].key <= k);
                }
            }
        }
    }
}

/// The position the recursive scan finds is the one and only position with
/// nothing but keys at most `k` before it and a larger key at it.
proof fn lemma_insert_pos_char(s: Seq<Outcome>, k: u32, p: int)
    requires
        0 <= p <= s.len(),
        forall|j: int| 0 <= j < p ==> s[j].key <= k,
        p < s.len() ==> s[p].key > k,
    ensures
        insert_pos(s, k) == p,
    decreases s.len(),
{
    if s.len() > 0 && p > 0 {
        lemma_insert_pos_char(s.drop_first(), k, p - 1);
    }
}

/// One entry placed into an ordered report at its stable position.
pub open spec fn sorted_insert(s: Seq<Outcome>, x: Outcome) -> Seq<Outcome> {
    s.insert(insert_pos(s, x.key), x)
}

/// The ordered report: every entry of `s` placed, in order of arrival, at
/// its stable position. This is the insertion sort of the outcomes by key.
pub open spec fn sort_outcomes(s: Seq<Outcome>) -> Seq<Outcome>
    decreases s.len(),
{
    if s.len() == 0 {
        Seq::empty()
    } else {
        sorted_insert(sort_outcomes(s.drop_last()), s.last())
    }
}

proof fn lemma_sorted_insert_sorted(s: Seq<Outcome>, x: Outcome)
    requires
        sorted_by_key(s),
    ensures
        sorted_by_key(sorted_insert(s, x)),
{
    lemma_insert_pos_bounds(s, x.key);
}

proof fn lemma_sorted_insert_multiset(s: Seq<Outcome>, x: Outcome)
    ensures
        sorted_insert(s, x).to_multiset() == s.to_multiset().insert(x),
{
    let p = insert_pos(s, x.key);
    lemma_insert_pos_bounds(s, x.key);
    let a = s.take(p);
    let b = s.skip(p);
    assert(sorted_insert(s, x) =~= a.push(x) + b);
    lemma_multiset_commutative(a.push(x), b);
    to_multiset_build(a, x);
    lemma_multiset_commutative(a, b);
    assert(a + b =~= s);
    assert(sorted_insert(s, x).to_multiset() =~= s.to_multiset().insert(x));
}

/// The ordered report is ascending by sort key: for two probed addresses the
/// line of the numerically smaller one comes first, however their probes
/// interleaved.
pub proof fn lemma_sort_outcomes_sorted(s: Seq<Outcome>)
    ensures
        sorted_by_key(sort_outcomes(s)),
    decreases s.len(),
{
    if s.len() > 0 {
        lemma_sort_outcomes_sorted(s.drop_last());
        lemma_sorted_insert_sorted(sort_outcomes(s.drop_last()), s.last());
    }
}

/// Ordering the outcomes loses none and invents none: the ordered report
/// holds exactly the collected outcomes, one line per target.
pub proof fn lemma_sort_outcomes_multiset(s: Seq<Outcome>)
    ensures
        sort_outcomes(s).to_multiset() == s.to_multiset(),
        sort_outcomes(s).len() == s.len(),
    decreases s.len(),
{
    broadcast use vstd::seq_lib::group_to_multiset_ensures;

    if s.len() > 0 {
        lemma_sort_outcomes_multiset(s.drop_last());
        lemma_sorted_insert_multiset(sort_outcomes(s.drop_last()), s.last());
        assert(s =~= s.drop_last().push(s.last()));
        to_multiset_build(s.drop_last(), s.last());
        to_multiset_len(sort_outcomes(s));
        to_multiset_len(s);
    } else {
        to_multiset_len(sort_outcomes(s));
        to_multiset_len(s);
    }
}

/// A sequence with no entry of the sought key filters to nothing.
proof fn lemma_filter_none(s: Seq<Outcome>, f: spec_fn(Outcome) -> bool)
    requires
        forall|i: int| 0 <= i < s.len() ==> !f(s[i]),
    ensures
        s.filter(f) == Seq::<Outcome>::empty(),
    decreases s.len(),
{
    reveal(Seq::filter);
    if s.len() > 0 {
        lemma_filter_none(s.drop_last(), f);
    }
    assert(s.filter(f) =~= Seq::<Outcome>::empty());
}

/// Sorting is stable: the entries that share any one sort key stand in the
/// ordered report exactly as they arrived from the collector, in order.
pub proof fn lemma_sort_outcomes_stable(s: Seq<Outcome>, k: u32)
    ensures
        sort_outcomes(s).filter(|o: Outcome| o.key == k) == s.filter(|o: Outcome| o.key == k),
    decreases s.len(),
{
    reveal_with_fuel(Seq::<_>::filter, 3);
    let f = |o: Outcome| o.key == k;
    if s.len() == 0 {
        assert(sort_outcomes(s).filter(f) =~= s.filter(f));
    } else {
        let d = s.drop_last();
        let x = s.last();
        lemma_sort_outcomes_stable(d, k);
        lemma_sort_outcomes_sorted(d);
        let t = sort_outcomes(d);
        let p = insert_pos(t, x.key);
        lemma_insert_pos_bounds(t, x.key);
        let a = t.take(p);
        let b = t.skip(p);
        let xs = seq![x];
        assert(xs.drop_last() =~= Seq::<Outcome>::empty());
        assert(xs.filter(f) =~= if f(x) {
            xs
        } else {
            Seq::<Outcome>::empty()
        });
        // nothing past the insertion point carries a key at or below `x.key`
        assert forall|j: int| 0 <= j < b.len() implies b[j].key > x.key by {
            assert(t[p] == b[0]);
            assert(t[p + j] == b[j]);
        }
        assert(sort_outcomes(s) =~= a + (xs + b));
        Seq::filter_distributes_over_add(a, xs + b, f);
        Seq::filter_distributes_over_add(xs, b, f);
        Seq::filter_distributes_over_add(a, b, f);
        assert(a + b =~= t);
        assert(s =~= d + xs);
        Seq::filter_distributes_over_add(d, xs, f);
        if f(x) {
            lemma_filter_none(b, f);
            assert(sort_outcomes(s).filter(f) =~= s.filter(f));
        } else {
            assert(sort_outcomes(s).filter(f) =~= s.filter(f));
        }
    }
}

/// Sorts the collected outcomes ascending by sort key, stably: entries with
/// equal keys keep the order they arrived in.
pub fn sort_by_key(outcomes: Vec<Outcome>) -> (r: Vec<Outcome>)
    ensures
        r@ == sort_outcomes(outcomes@),
{
    let ghost orig = outcomes@;
    let mut rest = outcomes;
    let mut out: Vec<Outcome> = Vec::new();
    proof {
        assert(orig.take(0) =~= Seq::<Outcome>::empty());
    }
    while rest.len() > 0
        invariant
            rest@.len() <= orig.len(),
            rest@ =~= orig.skip(orig.len() - rest@.len()),
            out@ == sort_outcomes(orig.take(orig.len() - rest@.len())),
        decreases rest@.len(),
    {
        let ghost done = orig.len() - rest@.len();
        let x = rest.remove(0);
        proof {
            assert(x == orig[done]);
        }
        let mut p: usize = 0;
        while p < out.len() && out[p].key <= x.key
            invariant
                p <= out@.len(),
                forall|j: int| 0 <= j < p ==> out@[j].key <= x.key,
            decreases out@.len() - p,
        {
            p = p + 1;
        }
        proof {
            lemma_insert_pos_char(out@, x.key, p as int);
            assert(orig.take(done + 1).drop_last() =~= orig.take(done));
            assert(orig.take(done + 1).last() == orig[done]);
        }
        out.insert(p, x);
        proof {
            assert(rest@ =~= orig.skip(orig.len() - rest@.len()));
        }
    }
    proof {
        assert(orig.take(orig.len() as int) =~= orig);
    }
    out
}

// ---------- rendering report lines ----------

/// The word a report line ends with for each status.
pub open spec fn status_label(st: Status) -> Seq<char> {
    match st {
        Status::Up => "up"@,
        Status::Down => "down"@,
        Status::Invalid => "invalid"@,
        Status::UnsupportedFamily => "IPv6 currently unsupported"@,
    }
}

/// One report line: the target's text, then what it is.
pub open spec fn line_text(target: Seq<char>, st: Status) -> Seq<char> {
    target + " is "@ + status_label(st)
}

/// Renders one outcome as its report line.
pub fn render_line(o: &Outcome) -> (r: String)
    ensures
        r@ == line_text(o.target@, o.status),
{
    let mut out = o.target.clone();
    out.append(" is ");
    match o.status {
        Status::Up => out.append("up"),
        Status::Down => out.append("down"),
        Status::Invalid => out.append("invalid"),
        Status::UnsupportedFamily => out.append("IPv6 currently unsupported"),
    }
    out
}

/// The rendered report of a set of collected outcomes: one line per outcome,
/// ordered ascending by sort key, ties keeping arrival order.
pub open spec fn report_of(outcomes: Seq<Outcome>) -> Seq<Seq<char>> {
    sort_outcomes(outcomes).map(|i: int, o: Outcome| line_text(o.target@, o.status))
}

/// Sorts the collected outcomes and renders them, one line per outcome: no
/// outcome is dropped and none is added, whatever order probes completed in.
pub fn report_lines(outcomes: Vec<Outcome>) -> (lines: Vec<String>)
    ensures
        lines@.len() == outcomes@.len(),
        forall|i: int| 0 <= i < lines@.len() ==> #[trigger] lines@[i]@ == report_of(outcomes@)[i],
{
    proof {
        lemma_sort_outcomes_multiset(outcomes@);
    }
    let ghost orig = outcomes@;
    let sorted = sort_by_key(outcomes);
    let mut lines: Vec<String> = Vec::new();
    let mut i: usize = 0;
    while i < sorted.len()
        invariant
            i <= sorted@.len(),
            sorted@ == sort_outcomes(orig),
            lines@.len() == i,
            forall|j: int| 0 <= j < i ==> #[trigger] lines@[j]@ == report_of(orig)[j],
        decreases sorted@.len() - i,
    {
        let line = render_line(&sorted[i]);
        lines.push(line);
        i = i + 1;
    }
    lines
}

/// One line per collected outcome: the rendered report drops nothing and
/// adds nothing.
pub proof fn lemma_report_count(outcomes: Seq<Outcome>)
    ensures
        report_of(outcomes).len() == outcomes.len(),
{
    lemma_sort_outcomes_multiset(outcomes);
}

// ---------- the whole sweep, given the probes' answers ----------

/// Resolves every target to its outcome, taking the reachability answer for
/// each from `ups`: the answer is consulted only for valid IPv4 targets, and
/// every target yields exactly one outcome, in order.
pub fn resolve_all(targets: Vec<String>, ups: &Vec<bool>) -> (outcomes: Vec<Outcome>)
    requires
        ups@.len() == targets@.len(),
    ensures
        outcomes@.len() == targets@.len(),
        forall|i: int|
            0 <= i < outcomes@.len() ==> {
                &&& (#[trigger] outcomes@[i]).target == targets@[i]
                &&& outcomes@[i].key == key_of(targets@[i]@)
                &&& outcomes@[i].status == status_of(targets@[i]@, ups@[i])
            },
{
    let ghost orig = targets@;
    let mut rest = targets;
    let mut outcomes: Vec<Outcome> = Vec::new();
    while rest.len() > 0
        invariant
            ups@.len() == orig.len(),
            rest@.len() <= orig.len(),
            rest@ =~= orig.skip(orig.len() - rest@.len()),
            outcomes@.len() == orig.len() - rest@.len(),
            forall|i: int|
                0 <= i < outcomes@.len() ==> {
                    &&& (#[trigger] outcomes@[i]).target == orig[i]
                    &&& outcomes@[i].key == key_of(orig[i]@)
                    &&& outcomes@[i].status == status_of(orig[i]@, ups@[i])
                },
        decreases rest@.len(),
    {
        let ghost done = orig.len() - rest@.len();
        let idx = outcomes.len();
        let t = rest.remove(0);
        proof {
            assert(t == orig[done]);
        }
        let o = match triage(t) {
            Decision::Probe { target, key } => probed(target, key, ups[idx]),
            Decision::Settled { outcome } => outcome,
        };
        outcomes.push(o);
        proof {
            assert(rest@ =~= orig.skip(orig.len() - rest@.len()));
        }
    }
    outcomes
}

} // verus!
