//! The diff engine: the new-records delta between two snapshots, by full
//! structural equality.

use vstd::prelude::*;
use crate::record::{Record, RecordSet, RecView};

verus! {

/// The members of `cur` that are not members of `prev`, in order.
pub open spec fn diff_seq(cur: Seq<RecView>, prev: Seq<RecView>) -> Seq<RecView>
    decreases cur.len(),
{
    if cur.len() == 0 {
        Seq::<RecView>::empty()
    } else {
        let r = diff_seq(cur.drop_last(), prev);
        if prev.contains(cur.last()) {
            r
        } else {
            r.push(cur.last())
        }
    }
}

/// No two members of `s` are equal.
pub open spec fn distinct(s: Seq<RecView>) -> bool {
    forall|i: int, j: int| 0 <= i < j < s.len() ==> s[i] != s[j]
}

/// Membership in the delta: exactly the members of `cur` outside `prev`.
pub proof fn lemma_diff_seq_membership(cur: Seq<RecView>, prev: Seq<RecView>)
    ensures
        forall|v: RecView|
            #[trigger] diff_seq(cur, prev).contains(v) <==> cur.contains(v) && !prev.contains(v),
    decreases cur.len(),
{
    if cur.len() > 0 {
        let rest = cur.drop_last();
        lemma_diff_seq_membership(rest, prev);
        assert forall|v: RecView| #[trigger]
            diff_seq(cur, prev).contains(v) implies cur.contains(v) && !prev.contains(v) by {
            let d = diff_seq(cur, prev);
            let k = choose|k: int| 0 <= k < d.len() && d[k] == v;
            if !prev.contains(cur.last()) && k == d.len() - 1 {
                assert(cur[cur.len() - 1] == v);
            } else {
                assert(diff_seq(rest, prev).contains(v));
                let j = choose|j: int| 0 <= j < rest.len() && rest[j] == v;
                assert(cur[j] == v);
            }
        }
        assert forall|v: RecView|
            cur.contains(v) && !prev.contains(v) implies #[trigger] diff_seq(cur, prev).contains(
            v,
        ) by {
            let k = choose|k: int| 0 <= k < cur.len() && cur[k] == v;
            if k == cur.len() - 1 {
                let d = diff_seq(cur, prev);
                assert(d[d.len() - 1] == v);
            } else {
                assert(rest[k] == v);
                assert(diff_seq(rest, prev).contains(v));
                let j = choose|j: int|
                    0 <= j < diff_seq(rest, prev).len() && diff_seq(rest, prev)[j] == v;
                if prev.contains(cur.last()) {
                } else {
                    assert(diff_seq(cur, prev)[j] == v);
                }
            }
        }
    }
}

/// The delta of a distinct snapshot is distinct.
pub proof fn lemma_diff_seq_distinct(cur: Seq<RecView>, prev: Seq<RecView>)
    requires
        distinct(cur),
    ensures
        distinct(diff_seq(cur, prev)),
    decreases cur.len(),
{
    if cur.len() > 0 {
        let rest = cur.drop_last();
        assert(distinct(rest));
        lemma_diff_seq_distinct(rest, prev);
        lemma_diff_seq_membership(rest, prev);
        if !prev.contains(cur.last()) {
            let d = diff_seq(cur, prev);
            assert forall|i: int, j: int| 0 <= i < j < d.len() implies d[i] != d[j] by {
                if j == d.len() - 1 {
                    assert(!rest.contains(cur.last())) by {
                        if rest.contains(cur.last()) {
                            let k = choose|k: int| 0 <= k < rest.len() && rest[k] == cur.last();
                            assert(cur[k] == cur[cur.len() - 1]);
                        }
                    }
                    assert(diff_seq(rest, prev).contains(d[i]));
                }
            }
        }
    }
}

/// Computes `current - previous` under full structural equality: a changed
/// comment or rating on an existing name counts as a new record.
pub fn diff(current: &RecordSet, previous: &RecordSet) -> (r: RecordSet)
    ensures
        r@ == diff_seq(current@, previous@),
        r.as_set() == current.as_set().difference(previous.as_set()),
        current.wf() ==> r.wf(),
{
    let n = current.records.len();
    let mut out: Vec<Record> = Vec::new();
    let mut i: usize = 0;
    proof {
        assert(Seq::new(out@.len(), |k: int| out@[k]@) =~= diff_seq(
            current@.take(0),
            previous@,
        ));
    }
    while i < n
        invariant
            n == current.records.len(),
            i <= n,
            Seq::new(out@.len(), |k: int| out@[k]@) =~= diff_seq(current@.take(i as int), previous@),
        decreases n - i,
    {
        proof {
            assert(current@.take(i as int + 1).drop_last() =~= current@.take(i as int));
            assert(current@.take(i as int + 1).last() == current@[i as int]);
        }
        let rec = &current.records[i];
        proof {
            assert(rec@ == current@[i as int]);
        }
        if !previous.contains_rec(rec) {
            out.push(rec.clone());
        }
        i += 1;
        proof {
            assert(Seq::new(out@.len(), |k: int| out@[k]@) =~= diff_seq(
                current@.take(i as int),
                previous@,
            ));
        }
    }
    proof {
        assert(current@.take(n as int) =~= current@);
    }
    let r = RecordSet { records: out };
    proof {
        assert(r@ =~= diff_seq(current@, previous@));
        lemma_diff_seq_is_set_difference(current@, previous@);
        if current.wf() {
            lemma_diff_seq_distinct(current@, previous@);
        }
    }
    r
}

/// Diffing any snapshot against itself yields the empty delta.
pub proof fn lemma_diff_self_empty(s: Seq<RecView>)
    ensures
        diff_seq(s, s) == Seq::<RecView>::empty(),
    decreases s.len(),
{
    if s.len() > 0 {
        let rest = s.drop_last();
        assert forall|i: int| 0 <= i < rest.len() implies s.contains(#[trigger] rest[i]) by {
            assert(s[i] == rest[i]);
        }
        lemma_diff_seq_drops_all(s, s);
    }
    assert(diff_seq(s, s) =~= Seq::<RecView>::empty());
}

proof fn lemma_diff_seq_drops_all(cur: Seq<RecView>, prev: Seq<RecView>)
    requires
        forall|i: int| 0 <= i < cur.len() ==> prev.contains(#[trigger] cur[i]),
    ensures
        diff_seq(cur, prev) == Seq::<RecView>::empty(),
    decreases cur.len(),
{
    if cur.len() > 0 {
        let rest = cur.drop_last();
        assert forall|i: int| 0 <= i < rest.len() implies prev.contains(#[trigger] rest[i]) by {
            assert(cur[i] == rest[i]);
        }
        lemma_diff_seq_drops_all(rest, prev);
        assert(prev.contains(cur[cur.len() - 1]));
    }
    assert(diff_seq(cur, prev) =~= Seq::<RecView>::empty());
}

/// The delta is exactly the set difference of the two snapshots.
pub proof fn lemma_diff_seq_is_set_difference(cur: Seq<RecView>, prev: Seq<RecView>)
    ensures
        diff_seq(cur, prev).to_set() == cur.to_set().difference(prev.to_set()),
{
    lemma_diff_seq_membership(cur, prev);
    assert(diff_seq(cur, prev).to_set() =~= cur.to_set().difference(prev.to_set()));
}

} // verus!
