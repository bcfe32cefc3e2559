//! Why the order a round's rows are handed over in does not matter: they are
//! put in sequence order first, and two orderings of the same rows, no
//! sequence twice, put in sequence order are one list.

use vstd::prelude::*;

use crate::driver::receipts::CommittedModel;
use crate::driver::round::{
    authors, by_sequence, exact_replay, insert_at, preflight, preflight_error, round_result, unexpected_pred, PreStep,
    RoundFold,
};
use crate::driver::state::DriverModel;
use crate::driver::step::FoldConfig;
use crate::error::Error;
use crate::first::{first_index, lemma_first_index};
use crate::routing::opt_view;
use crate::text::distinct;

verus! {

/// Whether no two rows share a sequence.
pub open spec fn sequences_distinct(evs: Seq<CommittedModel>) -> bool {
    forall|i: int, j: int| 0 <= i < j < evs.len() ==> #[trigger] evs[i].sequence != #[trigger] evs[j].sequence
}

/// Whether the rows run in increasing order of sequence.
pub open spec fn increasing(evs: Seq<CommittedModel>) -> bool {
    forall|i: int, j: int| 0 <= i < j < evs.len() ==> #[trigger] evs[i].sequence.0 < #[trigger] evs[j].sequence.0
}

/// Whether two lists hold the same rows, each at one sequence of its own,
/// in any order.
pub open spec fn reordered(a: Seq<CommittedModel>, b: Seq<CommittedModel>) -> bool {
    &&& a.len() == b.len()
    &&& sequences_distinct(a)
    &&& sequences_distinct(b)
    &&& forall|x: CommittedModel| #![trigger a.contains(x)] #![trigger b.contains(x)] a.contains(x) <==> b.contains(x)
}

/// Inserting `e` at `k` keeps every row and adds `e`.
proof fn lemma_insert_contains(r: Seq<CommittedModel>, k: int, e: CommittedModel)
    requires
        0 <= k <= r.len(),
    ensures
        r.insert(k, e).len() == r.len() + 1,
        forall|x: CommittedModel| #![trigger r.insert(k, e).contains(x)] #![trigger r.contains(x)] r.insert(k, e).contains(x) <==> (x == e || r.contains(x)),
{
    let n = r.insert(k, e);
    assert forall|x: CommittedModel| n.contains(x) <==> (x == e || r.contains(x)) by {
        if n.contains(x) {
            let i = choose|i: int| 0 <= i < n.len() && n[i] == x;
            if i < k {
                assert(r[i] == x);
            } else if i > k {
                assert(r[i - 1] == x);
            }
        }
        if x == e {
            assert(n[k] == e);
        } else if r.contains(x) {
            let i = choose|i: int| 0 <= i < r.len() && r[i] == x;
            if i < k {
                assert(n[i] == x);
            } else {
                assert(n[i + 1] == x);
            }
        }
    }
}

/// Putting rows in sequence order keeps every row, and only those; keeps
/// sequences apart when they were; and leaves them in order.
pub proof fn lemma_by_sequence(evs: Seq<CommittedModel>)
    ensures
        by_sequence(evs).len() == evs.len(),
        forall|x: CommittedModel| #![trigger by_sequence(evs).contains(x)] #![trigger evs.contains(x)] by_sequence(evs).contains(x) <==> evs.contains(x),
        forall|i: int, j: int|
            0 <= i < j < evs.len() ==> #[trigger] by_sequence(evs)[i].sequence.0 <= #[trigger] by_sequence(evs)[j].sequence.0,
        sequences_distinct(evs) ==> sequences_distinct(by_sequence(evs)),
    decreases evs.len(),
{
    if evs.len() > 0 {
        let d = evs.drop_last();
        let e = evs.last();
        let r = by_sequence(d);
        lemma_by_sequence(d);
        let k = insert_at(r, e);
        let p = |i: int| r[i].sequence.0 > e.sequence.0;
        lemma_first_index(p, r.len() as int);
        assert(k == crate::first::first_index(p, r.len() as int));
        lemma_insert_contains(r, k, e);
        let n = r.insert(k, e);
        assert(n == by_sequence(evs));
        assert forall|x: CommittedModel| n.contains(x) <==> evs.contains(x) by {
            if x == e {
                assert(evs[evs.len() - 1] == e);
            }
            if d.contains(x) {
                let i = choose|i: int| 0 <= i < d.len() && d[i] == x;
                assert(evs[i] == x);
            }
            if evs.contains(x) && x != e {
                let i = choose|i: int| 0 <= i < evs.len() && evs[i] == x;
                assert(i != evs.len() - 1);
                assert(d[i] == x);
            }
        }
        assert forall|i: int| k <= i < r.len() implies #[trigger] r[i].sequence.0 > e.sequence.0 by {
            if i > k {
                assert(r[k].sequence.0 <= r[i].sequence.0);
            }
        }
        assert forall|i: int, j: int| 0 <= i < j < n.len() implies #[trigger] n[i].sequence.0 <= #[trigger] n[j].sequence.0 by {
            if j < k {
                assert(n[i] == r[i] && n[j] == r[j]);
            } else if j == k {
                assert(!p(i));
            } else if i < k {
                assert(n[j] == r[j - 1]);
                assert(!p(i));
                assert(r[j - 1].sequence.0 > e.sequence.0);
            } else if i == k {
                assert(n[j] == r[j - 1]);
            } else {
                assert(n[i] == r[i - 1] && n[j] == r[j - 1]);
            }
        }
        if sequences_distinct(evs) {
            assert(sequences_distinct(d)) by {
                assert forall|i: int, j: int| 0 <= i < j < d.len() implies #[trigger] d[i].sequence != #[trigger] d[j].sequence by {
                    assert(evs[i] == d[i] && evs[j] == d[j]);
                }
            }
            assert forall|i: int| 0 <= i < r.len() implies #[trigger] r[i].sequence != e.sequence by {
                assert(r.contains(r[i]));
                let m = choose|m: int| 0 <= m < d.len() && d[m] == r[i];
                assert(evs[m] == d[m]);
                assert(evs[evs.len() - 1] == e);
            }
            assert forall|i: int, j: int| 0 <= i < j < n.len() implies #[trigger] n[i].sequence != #[trigger] n[j].sequence by {
                if j < k {
                    assert(n[i] == r[i] && n[j] == r[j]);
                } else if j == k {
                    assert(n[i] == r[i]);
                } else if i < k {
                    assert(n[i] == r[i] && n[j] == r[j - 1]);
                } else if i == k {
                    assert(n[j] == r[j - 1]);
                } else {
                    assert(n[i] == r[i - 1] && n[j] == r[j - 1]);
                }
            }
        }
    }
}

/// Rows in increasing order of sequence are fixed by which rows they are.
pub proof fn lemma_increasing_unique(a: Seq<CommittedModel>, b: Seq<CommittedModel>)
    requires
        increasing(a),
        increasing(b),
        forall|x: CommittedModel| #![trigger a.contains(x)] #![trigger b.contains(x)] a.contains(x) <==> b.contains(x),
    ensures
        a == b,
    decreases a.len(),
{
    if a.len() == 0 {
        if b.len() > 0 {
            assert(b.contains(b[0]));
        }
        assert(a =~= b);
    } else {
        assert(a.contains(a[0]));
        let j = choose|j: int| 0 <= j < b.len() && b[j] == a[0];
        assert(b.contains(b[0]));
        let k = choose|k: int| 0 <= k < a.len() && a[k] == b[0];
        if k > 0 {
            assert(a[0].sequence.0 < a[k].sequence.0);
            if j > 0 {
                assert(b[0].sequence.0 < b[j].sequence.0);
            }
        }
        if j > 0 {
            assert(b[0].sequence.0 < b[j].sequence.0);
        }
        assert(k == 0);
        assert(a[0] == b[0]);
        let a1 = a.drop_first();
        let b1 = b.drop_first();
        assert forall|x: CommittedModel| a1.contains(x) <==> b1.contains(x) by {
            if a1.contains(x) {
                let i = choose|i: int| 0 <= i < a1.len() && a1[i] == x;
                assert(a[i + 1] == x);
                assert(a[0].sequence.0 < a[i + 1].sequence.0);
                assert(a.contains(x));
                let m = choose|m: int| 0 <= m < b.len() && b[m] == x;
                assert(m != 0);
                assert(b1[m - 1] == x);
            }
            if b1.contains(x) {
                let i = choose|i: int| 0 <= i < b1.len() && b1[i] == x;
                assert(b[i + 1] == x);
                assert(b[0].sequence.0 < b[i + 1].sequence.0);
                assert(b.contains(x));
                let m = choose|m: int| 0 <= m < a.len() && a[m] == x;
                assert(m != 0);
                assert(a1[m - 1] == x);
            }
        }
        assert(increasing(a1)) by {
            assert forall|i: int, j: int| 0 <= i < j < a1.len() implies #[trigger] a1[i].sequence.0 < #[trigger] a1[j].sequence.0 by {
                assert(a1[i] == a[i + 1] && a1[j] == a[j + 1]);
            }
        }
        assert(increasing(b1)) by {
            assert forall|i: int, j: int| 0 <= i < j < b1.len() implies #[trigger] b1[i].sequence.0 < #[trigger] b1[j].sequence.0 by {
                assert(b1[i] == b[i + 1] && b1[j] == b[j + 1]);
            }
        }
        lemma_increasing_unique(a1, b1);
        assert(a =~= b) by {
            assert forall|i: int| 0 <= i < a.len() implies a[i] == b[i] by {
                if i > 0 {
                    assert(a[i] == a1[i - 1] && b[i] == b1[i - 1]);
                }
            }
        }
    }
}

/// Two orderings of the same rows, no sequence twice, put in sequence order
/// are the same list.
pub proof fn lemma_by_sequence_reordered(a: Seq<CommittedModel>, b: Seq<CommittedModel>)
    requires
        reordered(a, b),
    ensures
        by_sequence(a) == by_sequence(b),
{
    lemma_by_sequence(a);
    lemma_by_sequence(b);
    let sa = by_sequence(a);
    let sb = by_sequence(b);
    assert(increasing(sa)) by {
        assert forall|i: int, j: int| 0 <= i < j < sa.len() implies #[trigger] sa[i].sequence.0 < #[trigger] sa[j].sequence.0 by {
            assert(sa[i].sequence.0 <= sa[j].sequence.0);
            assert(sa[i].sequence != sa[j].sequence);
        }
    }
    assert(increasing(sb)) by {
        assert forall|i: int, j: int| 0 <= i < j < sb.len() implies #[trigger] sb[i].sequence.0 < #[trigger] sb[j].sequence.0 by {
            assert(sb[i].sequence.0 <= sb[j].sequence.0);
            assert(sb[i].sequence != sb[j].sequence);
        }
    }
    lemma_increasing_unique(sa, sb);
}

/// Reordering keeps an exact replay one.
proof fn lemma_replay_reordered(s: DriverModel, a: Seq<CommittedModel>, b: Seq<CommittedModel>)
    requires
        reordered(a, b),
        exact_replay(s, a),
    ensures
        exact_replay(s, b),
{
    assert forall|i: int| 0 <= i < b.len() implies s.receipts.dom().contains(#[trigger] b[i].sequence)
        && s.receipts[b[i].sequence] == b[i] by {
        assert(b.contains(b[i]));
        let j = choose|j: int| 0 <= j < a.len() && a[j] == b[i];
        assert(s.receipts.dom().contains(a[j].sequence));
    }
}

/// Reordering keeps the authors apart when they were.
proof fn lemma_authors_reordered(a: Seq<CommittedModel>, b: Seq<CommittedModel>)
    requires
        reordered(a, b),
        distinct(authors(a)),
    ensures
        distinct(authors(b)),
{
    assert forall|i: int, j: int| 0 <= i < j < authors(b).len() implies #[trigger] authors(b)[i] != #[trigger] authors(b)[j] by {
        assert(b.contains(b[i]));
        let p = choose|p: int| 0 <= p < a.len() && a[p] == b[i];
        assert(b.contains(b[j]));
        let q = choose|q: int| 0 <= q < a.len() && a[q] == b[j];
        assert(b[i].sequence != b[j].sequence);
        assert(authors(a)[p] == a[p].author_id && authors(a)[q] == a[q].author_id);
        if p < q {
            assert(authors(a)[p] != authors(a)[q]);
        } else {
            assert(authors(a)[q] != authors(a)[p]);
        }
    }
}

/// Reordering keeps the set of authors.
proof fn lemma_author_set_reordered(a: Seq<CommittedModel>, b: Seq<CommittedModel>)
    requires
        reordered(a, b),
    ensures
        authors(a).to_set() == authors(b).to_set(),
{
    assert forall|x: Seq<char>| authors(a).to_set().contains(x) <==> authors(b).to_set().contains(x) by {
        if authors(a).contains(x) {
            let i = choose|i: int| 0 <= i < authors(a).len() && authors(a)[i] == x;
            assert(a.contains(a[i]));
            let j = choose|j: int| 0 <= j < b.len() && b[j] == a[i];
            assert(authors(b)[j] == x);
        }
        if authors(b).contains(x) {
            let i = choose|i: int| 0 <= i < authors(b).len() && authors(b)[i] == x;
            assert(b.contains(b[i]));
            let j = choose|j: int| 0 <= j < a.len() && a[j] == b[i];
            assert(authors(a)[j] == x);
        }
    }
    assert(authors(a).to_set() =~= authors(b).to_set());
}

/// A round's rows are folded in sequence order whatever order they are
/// handed over in: two orderings of the same rows, no sequence twice, are
/// both refused, or are the same replay, or give the same rows in the same
/// order with the same fallback responders.
pub proof fn lemma_round_order_irrelevant(
    cfg: FoldConfig,
    s: DriverModel,
    src: DriverModel,
    rev: u64,
    ids: Seq<Seq<char>>,
    evs1: Seq<CommittedModel>,
    evs2: Seq<CommittedModel>,
    routed: bool,
    r1: Result<RoundFold, Error>,
    r2: Result<RoundFold, Error>,
)
    requires
        reordered(evs1, evs2),
        round_result(cfg, s, src, rev, ids, evs1, routed, r1),
        round_result(cfg, s, src, rev, ids, evs2, routed, r2),
    ensures
        r1 is Err <==> r2 is Err,
        r1 matches Ok(RoundFold::Replay(t1)) ==> r2 matches Ok(RoundFold::Replay(t2)) && t1.state@ == t2.state@
            && t1.actions@.len() == 0 && t2.actions@.len() == 0,
        r1 matches Ok(RoundFold::Events(l1)) ==> r2 matches Ok(RoundFold::Events(l2)) && l1@.len() == l2@.len()
            && forall|i: int| 0 <= i < l1@.len() ==> (#[trigger] l1@[i]).event@ == l2@[i].event@ && opt_view(
                l1@[i].fallback,
            ) == opt_view(l2@[i].fallback),
{
    if exact_replay(s, evs1) {
        lemma_replay_reordered(s, evs1, evs2);
    }
    if exact_replay(s, evs2) {
        lemma_replay_reordered(s, evs2, evs1);
    }
    if distinct(authors(evs1)) {
        lemma_authors_reordered(evs1, evs2);
    }
    if distinct(authors(evs2)) {
        lemma_authors_reordered(evs2, evs1);
    }
    lemma_author_set_reordered(evs1, evs2);
    lemma_by_sequence_reordered(evs1, evs2);
}

/// A row refused on its own is never refused for its author being outside
/// the round: that is decided before any row is looked at.
proof fn lemma_preflight_error_kind(cfg: FoldConfig, s: DriverModel, routed: bool, evs: Seq<CommittedModel>, err: Error)
    requires
        preflight_error(cfg, s, routed, evs, err),
    ensures
        !(err is UnexpectedRoundAuthor),
    decreases evs.len(),
{
    if evs.len() > 0 {
        match preflight(cfg, s, routed, evs.drop_last()) {
            PreStep::Refused => lemma_preflight_error_kind(cfg, s, routed, evs.drop_last(), err),
            PreStep::Go(p) => {},
        }
    }
}

/// Two orderings of the same rows, no sequence twice, are answered alike. A
/// round with an author outside it is refused in both, each naming the first
/// such author in the order it was handed; any other answer to one ordering
/// is an answer to the other.
pub proof fn lemma_round_answer_order_free(
    cfg: FoldConfig,
    s: DriverModel,
    src: DriverModel,
    rev: u64,
    ids: Seq<Seq<char>>,
    evs1: Seq<CommittedModel>,
    evs2: Seq<CommittedModel>,
    routed: bool,
    r1: Result<RoundFold, Error>,
    r2: Result<RoundFold, Error>,
)
    requires
        reordered(evs1, evs2),
        round_result(cfg, s, src, rev, ids, evs1, routed, r1),
        round_result(cfg, s, src, rev, ids, evs2, routed, r2),
    ensures
        (r1 matches Err(Error::UnexpectedRoundAuthor { .. })) <==> (r2 matches Err(
            Error::UnexpectedRoundAuthor { .. },
        )),
        !(r2 matches Err(Error::UnexpectedRoundAuthor { .. })) ==> round_result(cfg, s, src, rev, ids, evs1, routed, r2),
        r2 matches Err(Error::UnexpectedRoundAuthor { agent_id }) ==> !ids.contains(agent_id@) && authors(
            evs1,
        ).contains(agent_id@),
{
    let au1 = authors(evs1);
    let au2 = authors(evs2);
    if exact_replay(s, evs1) {
        lemma_replay_reordered(s, evs1, evs2);
    }
    if exact_replay(s, evs2) {
        lemma_replay_reordered(s, evs2, evs1);
    }
    if distinct(au1) {
        lemma_authors_reordered(evs1, evs2);
    }
    if distinct(au2) {
        lemma_authors_reordered(evs2, evs1);
    }
    lemma_author_set_reordered(evs1, evs2);
    lemma_by_sequence_reordered(evs1, evs2);
    let p1 = unexpected_pred(ids, au1);
    let p2 = unexpected_pred(ids, au2);
    lemma_first_index(p1, au1.len() as int);
    lemma_first_index(p2, au2.len() as int);
    let f1 = first_index(p1, au1.len() as int);
    let f2 = first_index(p2, au2.len() as int);
    if let Err(e) = r1 {
        if preflight_error(cfg, s, routed, by_sequence(evs1), e) {
            lemma_preflight_error_kind(cfg, s, routed, by_sequence(evs1), e);
        }
    }
    if let Err(e) = r2 {
        if preflight_error(cfg, s, routed, by_sequence(evs2), e) {
            lemma_preflight_error_kind(cfg, s, routed, by_sequence(evs2), e);
        }
    }
    if f2 < au2.len() {
        let x = au2[f2];
        assert(au2.to_set().contains(x));
        assert(au1.to_set().contains(x));
        let i = choose|i: int| 0 <= i < au1.len() && au1[i] == x;
        assert(p1(i));
        assert(f1 < au1.len());
        assert(au1.contains(x));
    }
    if f1 < au1.len() {
        let x = au1[f1];
        assert(au1.to_set().contains(x));
        assert(au2.to_set().contains(x));
        let i = choose|i: int| 0 <= i < au2.len() && au2[i] == x;
        assert(p2(i));
        assert(f2 < au2.len());
    }
}

} // verus!
