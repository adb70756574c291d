//! Operation-log reading and replay.
//!
//! Kept behind its own module boundary: snapshot parsing never calls into it,
//! and it depends on the snapshot only for the `Segment` type the two formats
//! share.

pub mod log;
pub mod replay;

use vstd::prelude::*;
use crate::fluid::merge_tree::{Segment, SegmentView, segment_views};
use crate::order::{SortKey, stable_sort_by, sort_stable, key_order, lemma_stable_sort_map, lemma_stable_sort_sorted,
    total_preorder};
use crate::text::{chars_less, text_less, same_text, lemma_chars_less_total, lemma_chars_less_transitive,
    lemma_chars_less_asymmetric, lemma_chars_less_irreflexive};
use log::{AddressedOp, AddressedView, DocumentOp, OpView, OperationCounts, address_of, count_ops, op_views, opt_chars,
    parse_deltas};
use replay::{Replay, replay_ops};

verus! {

/// Every operation a container holds, grouped by what it targets.
#[derive(Debug)]
pub struct OperationLog {
    pub ops: Vec<AddressedOp>,
    pub counts: OperationCounts,
    /// True when the log provably begins where the snapshot ends, so it can be
    /// replayed on top of the snapshot without applying anything twice.
    pub follows_snapshot: bool,
}

impl Default for OperationLog {
    fn default() -> (r: Self)
        ensures
            r.ops@.len() == 0,
            r.counts == count_ops(Seq::empty()),
            !r.follows_snapshot,
    {
        OperationLog {
            ops: Vec::new(),
            counts: OperationCounts { records: 0, inserts: 0, removes: 0, annotates: 0, unknown: 0 },
            follows_snapshot: false,
        }
    }
}

/// The outcome of rebuilding one address's content from operations.
#[derive(Debug)]
pub struct ReplaySummary {
    pub address: String,
    /// True when the snapshot's own segments were the starting point.
    pub seeded_from_snapshot: bool,
    pub channel: Option<String>,
    pub component_package: Option<String>,
    pub operations_applied: usize,
    pub operations_skipped: usize,
    pub segments: usize,
}

/// The content of a [`ReplaySummary`].
pub struct ReplaySummaryView {
    pub address: Seq<char>,
    pub seeded_from_snapshot: bool,
    pub channel: Option<Seq<char>>,
    pub component_package: Option<Seq<char>>,
    pub operations_applied: int,
    pub operations_skipped: int,
    pub segments: int,
}

impl View for ReplaySummary {
    type V = ReplaySummaryView;

    open spec fn view(&self) -> ReplaySummaryView {
        ReplaySummaryView {
            address: self.address@,
            seeded_from_snapshot: self.seeded_from_snapshot,
            channel: opt_chars(self.channel),
            component_package: opt_chars(self.component_package),
            operations_applied: self.operations_applied as int,
            operations_skipped: self.operations_skipped as int,
            segments: self.segments as int,
        }
    }
}

/// Insert counts per address, in the order addresses were first seen.
pub open spec fn first_seen_tally(ops: Seq<AddressedView>) -> Seq<(Seq<char>, int)>
    decreases ops.len(),
{
    if ops.len() == 0 {
        Seq::empty()
    } else {
        let t = first_seen_tally(ops.drop_last());
        let o = ops.last();
        if o.op is Insert {
            let a = address_of(o.channel, o.data_structure);
            match tally_position(t, a) {
                Some(p) => t.update(p, (a, t[p].1 + 1)),
                None => t.push((a, 1)),
            }
        } else {
            t
        }
    }
}

/// The position of `a` in a tally.
pub open spec fn tally_position(t: Seq<(Seq<char>, int)>, a: Seq<char>) -> Option<int>
    decreases t.len(),
{
    if t.len() == 0 {
        None
    } else if t[0].0 == a {
        Some(0)
    } else {
        match tally_position(t.drop_first(), a) {
            Some(p) => Some(p + 1),
            None => None,
        }
    }
}

/// Ranking: most inserts first, then by address.
pub open spec fn rank_le(a: (Seq<char>, int), b: (Seq<char>, int)) -> bool {
    a.1 > b.1 || (a.1 == b.1 && !chars_less(b.0, a.0))
}

/// The ranking order.
pub open spec fn rank_order() -> spec_fn((Seq<char>, int), (Seq<char>, int)) -> bool {
    |a: (Seq<char>, int), b: (Seq<char>, int)| rank_le(a, b)
}

/// The ranking is a total preorder.
pub proof fn lemma_rank_total_preorder()
    ensures
        total_preorder(rank_order()),
{
    assert forall|a: (Seq<char>, int), b: (Seq<char>, int)| #[trigger] rank_order()(a, b) || rank_order()(b, a) by {
        lemma_chars_less_total(a.0, b.0);
        if chars_less(a.0, b.0) {
            lemma_chars_less_asymmetric(a.0, b.0);
        }
    }
    assert forall|a: (Seq<char>, int), b: (Seq<char>, int), c: (Seq<char>, int)|
        #[trigger] rank_order()(a, b) && #[trigger] rank_order()(b, c) implies rank_order()(a, c) by {
        if a.1 == b.1 && b.1 == c.1 {
            lemma_chars_less_total(a.0, c.0);
            if chars_less(c.0, a.0) {
                lemma_chars_less_total(b.0, a.0);
                lemma_chars_less_total(c.0, b.0);
                if chars_less(a.0, b.0) {
                    lemma_chars_less_transitive(c.0, a.0, b.0);
                    lemma_chars_less_asymmetric(c.0, b.0);
                } else if a.0 == b.0 {
                } else {
                }
                if c.0 != b.0 && b.0 != a.0 {
                    lemma_chars_less_transitive(c.0, b.0, a.0);
                }
            }
        }
    }
}

impl SortKey for (String, usize) {
    open spec fn key_le(&self, other: &Self) -> bool {
        rank_le((self.0@, self.1 as int), (other.0@, other.1 as int))
    }

    fn sorts_before(&self, other: &Self) -> (r: bool) {
        self.1 > other.1 || (self.1 == other.1 && !text_less(other.0.as_str(), self.0.as_str()))
    }
}

/// The contents of a ranking.
pub open spec fn tally_views(t: Seq<(String, usize)>) -> Seq<(Seq<char>, int)> {
    t.map_values(|e: (String, usize)| (e.0@, e.1 as int))
}

/// The operations addressed to `a`, in log order.
pub open spec fn ops_for(ops: Seq<AddressedView>, a: Seq<char>) -> Seq<OpView>
    decreases ops.len(),
{
    if ops.len() == 0 {
        Seq::empty()
    } else {
        let rest = ops_for(ops.drop_last(), a);
        let o = ops.last();
        if address_of(o.channel, o.data_structure) == a { rest.push(o.op) } else { rest }
    }
}

/// The channel of the first operation addressed to `a`.
pub open spec fn channel_for(ops: Seq<AddressedView>, a: Seq<char>) -> Option<Seq<char>>
    decreases ops.len(),
{
    if ops.len() == 0 {
        None
    } else if address_of(ops[0].channel, ops[0].data_structure) == a {
        ops[0].channel
    } else {
        channel_for(ops.drop_first(), a)
    }
}

impl OperationLog {
    /// Parses the raw delta strings and counts what they hold.
    pub fn parse(deltas: &[String]) -> (r: Self)
        ensures
            op_views(r.ops@) == parse_deltas(deltas@.map_values(|d: String| d@)),
            r.counts == count_ops(op_views(r.ops@)),
            !r.follows_snapshot,
    {
        let ops = log::parse(deltas);
        let counts = log::counts(ops.as_slice());
        OperationLog { ops, counts, follows_snapshot: false }
    }

    pub fn is_empty(&self) -> (r: bool)
        ensures
            r == (self.ops@.len() == 0),
    {
        self.ops.len() == 0
    }

    /// Insert counts per address, highest first, then by address.
    pub fn addresses_by_inserts(&self) -> (r: Vec<(String, usize)>)
        ensures
            tally_views(r@) == stable_sort_by(first_seen_tally(op_views(self.ops@)), rank_order()),
            forall|i: int, j: int| 0 <= i < j < r@.len() ==> rank_le(
                #[trigger] tally_views(r@)[i],
                #[trigger] tally_views(r@)[j],
            ),
    {
        let ghost ov = op_views(self.ops@);
        let mut tally: Vec<(String, usize)> = Vec::new();
        let mut i: usize = 0;
        assert(ov.take(0) =~= Seq::<AddressedView>::empty());
        assert(tally_views(tally@) =~= Seq::<(Seq<char>, int)>::empty());
        while i < self.ops.len()
            invariant
                i <= self.ops@.len(),
                ov == op_views(self.ops@),
                tally_views(tally@) == first_seen_tally(ov.take(i as int)),
                forall|k: int| 0 <= k < tally@.len() ==> (#[trigger] tally@[k]).1 <= i,
            decreases self.ops@.len() - i,
        {
            assert(ov.take(i + 1).drop_last() =~= ov.take(i as int));
            assert(ov.take(i + 1).last() == self.ops@[i as int]@);
            let op = &self.ops[i];
            if let DocumentOp::Insert { .. } = &op.op {
                let address = op.address();
                let ghost tv = tally_views(tally@);
                let mut p: usize = 0;
                assert(tv.skip(0) =~= tv);
                while p < tally.len() && !same_text(tally[p].0.as_str(), address.as_str())
                    invariant
                        p <= tally@.len(),
                        tv == tally_views(tally@),
                        tally_position(tv, address@) == match tally_position(tv.skip(p as int), address@) {
                            Some(q) => Some(q + p),
                            None => None,
                        },
                    decreases tally@.len() - p,
                {
                    assert(tv.skip(p as int)[0] == tv[p as int]);
                    assert(tv.skip(p as int).drop_first() =~= tv.skip(p + 1));
                    p += 1;
                }
                if p < tally.len() {
                    assert(tv.skip(p as int)[0] == tv[p as int]);
                    let (name, count) = tally.remove(p);
                    tally.insert(p, (name, count + 1));
                    assert(tally_views(tally@) =~= tv.update(p as int, (address@, tv[p as int].1 + 1)));
                } else {
                    tally.push((address, 1));
                    assert(tally_views(tally@) =~= tv.push((address@, 1)));
                }
            }
            i += 1;
        }
        assert(ov.take(i as int) =~= ov);
        proof {
            let f = |e: (String, usize)| (e.0@, e.1 as int);
            assert forall|a1: (String, usize), a2: (String, usize)| #[trigger] key_order::<(String, usize)>()(a1, a2)
                == rank_order()(f(a1), f(a2)) by {}
            lemma_stable_sort_map(tally@, f, key_order::<(String, usize)>(), rank_order());
            assert(tally@.map_values(f) =~= tally_views(tally@));
            lemma_rank_total_preorder();
            lemma_stable_sort_sorted(tally_views(tally@), rank_order());
        }
        let ranked = sort_stable(tally);
        assert(tally_views(ranked@) =~= ranked@.map_values(|e: (String, usize)| (e.0@, e.1 as int)));
        ranked
    }

    /// Replays every operation addressed to `address`, in log order, on top of
    /// `base`.
    pub fn replay_address(&self, address: &str, base: Vec<Segment>) -> (r: Replay)
        ensures
            r@ == replay_ops(segment_views(base@), ops_for(op_views(self.ops@), address@)),
    {
        let ghost ov = op_views(self.ops@);
        let mut ops: Vec<DocumentOp> = Vec::new();
        let mut i: usize = 0;
        assert(ov.take(0) =~= Seq::<AddressedView>::empty());
        assert(ops@.map_values(|o: DocumentOp| o@) =~= Seq::<OpView>::empty());
        while i < self.ops.len()
            invariant
                i <= self.ops@.len(),
                ov == op_views(self.ops@),
                ops@.map_values(|o: DocumentOp| o@) == ops_for(ov.take(i as int), address@),
            decreases self.ops@.len() - i,
        {
            assert(ov.take(i + 1).drop_last() =~= ov.take(i as int));
            assert(ov.take(i + 1).last() == self.ops@[i as int]@);
            let a = self.ops[i].address();
            if same_text(a.as_str(), address) {
                let ghost before = ops@;
                let op = self.ops[i].op.clone();
                ops.push(op);
                assert(ops@.map_values(|o: DocumentOp| o@) =~= before.map_values(|o: DocumentOp| o@).push(op@));
            }
            i += 1;
        }
        assert(ov.take(i as int) =~= ov);
        replay::replay_onto(base, ops.as_slice())
    }

    /// The channel part of an address: the channel of the first operation
    /// addressed to it.
    pub fn channel_of(&self, address: &str) -> (r: Option<String>)
        ensures
            opt_chars(r) == channel_for(op_views(self.ops@), address@),
    {
        let ghost ov = op_views(self.ops@);
        let mut i: usize = 0;
        assert(ov.skip(0) =~= ov);
        while i < self.ops.len()
            invariant
                i <= self.ops@.len(),
                ov == op_views(self.ops@),
                channel_for(ov, address@) == channel_for(ov.skip(i as int), address@),
            decreases self.ops@.len() - i,
        {
            assert(ov.skip(i as int)[0] == self.ops@[i as int]@);
            assert(ov.skip(i as int).drop_first() =~= ov.skip(i + 1));
            let a = self.ops[i].address();
            if same_text(a.as_str(), address) {
                return match &self.ops[i].channel {
                    Some(c) => Some(c.clone()),
                    None => None,
                };
            }
            i += 1;
        }
        None
    }
}

/// The concatenated text of the text segments.
pub open spec fn plain_text(segs: Seq<SegmentView>) -> Seq<char>
    decreases segs.len(),
{
    if segs.len() == 0 {
        Seq::empty()
    } else {
        plain_text(segs.drop_last()) + match segs.last() {
            SegmentView::Text { text, .. } => text,
            _ => Seq::empty(),
        }
    }
}

/// Plain text of a replayed segment list, for reporting.
pub fn segments_text(segments: &[Segment]) -> (r: String)
    ensures
        r@ == plain_text(segment_views(segments@)),
{
    let ghost v = segment_views(segments@);
    let mut out = String::new();
    let mut i: usize = 0;
    assert(v.take(0) =~= Seq::<SegmentView>::empty());
    while i < segments.len()
        invariant
            i <= segments@.len(),
            v == segment_views(segments@),
            out@ == plain_text(v.take(i as int)),
        decreases segments@.len() - i,
    {
        assert(v.take(i + 1).drop_last() =~= v.take(i as int));
        assert(v.take(i + 1).last() == segments@[i as int]@);
        match segments[i].text() {
            Some(t) => out.append(t),
            None => {
                assert(out@ =~= out@ + Seq::<char>::empty());
            },
        }
        i += 1;
    }
    assert(v.take(i as int) =~= v);
    out
}

} // verus!
