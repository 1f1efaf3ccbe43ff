//! Identifier ranges and piecewise-affine mapping stages.
//!
//! An `IdentifierRange` is a non-empty half-open interval of `u64`
//! identifiers.  A `MappingStage` is a collection of affine rules; applying a
//! stage to a range splits it into fragments by intersecting it with every
//! rule's source interval, shifting each intersection by that rule's offset,
//! and passing the uncovered remainder through unchanged.  When rules overlap
//! in their source domain, the first rule in input order wins the overlap.

use vstd::prelude::*;

verus! {

/// The half-open interval `[start, start + length)`.  Never empty.
#[derive(Clone, Copy, PartialEq, Eq, Structural, Debug)]
pub struct IdentifierRange {
    pub start: u64,
    pub length: u64,
}

/// One affine rule: identifiers in `[source_start, source_start + length)`
/// map to `identifier + dest_offset`.
#[derive(Clone, Copy, PartialEq, Eq, Structural, Debug)]
pub struct MappingRange {
    pub source_start: u64,
    pub length: u64,
    pub dest_offset: i64,
}

/// An unordered collection of mapping rules; identifiers not covered by any
/// rule pass through unchanged.
#[derive(Clone, Debug)]
pub struct MappingStage {
    pub rules: Vec<MappingRange>,
}

impl View for MappingStage {
    type V = Seq<MappingRange>;

    open spec fn view(&self) -> Seq<MappingRange> {
        self.rules@
    }
}

/// A range is well formed when it is non-empty and does not wrap around the
/// top of the `u64` space.
pub open spec fn range_wf(r: IdentifierRange) -> bool {
    r.length > 0 && r.start + r.length <= u64::MAX + 1
}

pub open spec fn in_range(r: IdentifierRange, x: int) -> bool {
    r.start <= x < r.start + r.length
}

/// A rule is well formed when its source interval is non-empty and both the
/// source interval and its shifted image stay inside the `u64` space.
pub open spec fn rule_wf(m: MappingRange) -> bool {
    &&& m.length > 0
    &&& m.source_start + m.length <= u64::MAX + 1
    &&& 0 <= m.source_start + m.dest_offset
    &&& m.source_start + m.dest_offset + m.length <= u64::MAX + 1
}

pub open spec fn rule_covers(m: MappingRange, x: int) -> bool {
    m.source_start <= x < m.source_start + m.length
}

pub open spec fn stage_wf(rules: Seq<MappingRange>) -> bool {
    forall|i: int| 0 <= i < rules.len() ==> rule_wf(#[trigger] rules[i])
}

/// Where one identifier goes through a stage: the first rule in input order
/// whose source interval covers it decides; otherwise it is unchanged.
pub open spec fn map_id(rules: Seq<MappingRange>, x: int) -> int
    decreases rules.len(),
{
    if rules.len() == 0 {
        x
    } else if rule_covers(rules[0], x) {
        x + rules[0].dest_offset
    } else {
        map_id(rules.drop_first(), x)
    }
}

/// One contiguous source sub-interval together with the offset the stage
/// applies to it; the bookkeeping unit of the splitting algorithm.
pub ghost struct Piece {
    pub src: int,
    pub len: int,
    pub off: int,
}

pub open spec fn in_piece(p: Piece, x: int) -> bool {
    p.src <= x < p.src + p.len
}

/// The destination-domain fragment a piece denotes.
pub open spec fn piece_frag(p: Piece) -> IdentifierRange {
    IdentifierRange { start: (p.src + p.off) as u64, length: p.len as u64 }
}

/// Intersects one pending source range with one rule: at most one shifted
/// piece, and the uncovered parts of the range as new pending ranges.
pub open spec fn split_one(m: MappingRange, q: IdentifierRange) -> (Seq<Piece>, Seq<
    IdentifierRange,
>) {
    let qlo = q.start as int;
    let qhi = q.start + q.length;
    let mlo = m.source_start as int;
    let mhi = m.source_start + m.length;
    let lo = if qlo >= mlo {
        qlo
    } else {
        mlo
    };
    let hi = if qhi <= mhi {
        qhi
    } else {
        mhi
    };
    if lo < hi {
        let hit = seq![Piece { src: lo, len: hi - lo, off: m.dest_offset as int }];
        let left: Seq<IdentifierRange> = if qlo < lo {
            seq![IdentifierRange { start: q.start, length: (lo - qlo) as u64 }]
        } else {
            seq![]
        };
        let right: Seq<IdentifierRange> = if hi < qhi {
            seq![IdentifierRange { start: hi as u64, length: (qhi - hi) as u64 }]
        } else {
            seq![]
        };
        (hit, left + right)
    } else {
        (seq![], seq![q])
    }
}

/// Sweeps one rule over every pending range in order.
pub open spec fn sweep_rule(m: MappingRange, qs: Seq<IdentifierRange>) -> (Seq<Piece>, Seq<
    IdentifierRange,
>)
    decreases qs.len(),
{
    if qs.len() == 0 {
        (Seq::<Piece>::empty(), Seq::<IdentifierRange>::empty())
    } else {
        let head = split_one(m, qs[0]);
        let rest = sweep_rule(m, qs.drop_first());
        (head.0 + rest.0, head.1 + rest.1)
    }
}

/// Sweeps the rules in input order, shrinking the pending set as it goes:
/// this is what makes the first matching rule win an overlap.
pub open spec fn sweep_rules(rules: Seq<MappingRange>, qs: Seq<IdentifierRange>) -> (Seq<
    Piece,
>, Seq<IdentifierRange>)
    decreases rules.len(),
{
    if rules.len() == 0 {
        (Seq::<Piece>::empty(), qs)
    } else {
        let first = sweep_rule(rules[0], qs);
        let rest = sweep_rules(rules.drop_first(), first.1);
        (first.0 + rest.0, rest.1)
    }
}

/// Pending ranges left uncovered at the end pass through with offset zero.
pub open spec fn id_pieces(qs: Seq<IdentifierRange>) -> Seq<Piece> {
    qs.map_values(|q: IdentifierRange| Piece { src: q.start as int, len: q.length as int, off: 0 })
}

/// The pieces a stage cuts one range into: rule hits first, in rule-major
/// order, then the identity remainder.
pub open spec fn stage_pieces(rules: Seq<MappingRange>, r: IdentifierRange) -> Seq<Piece> {
    let sw = sweep_rules(rules, seq![r]);
    sw.0 + id_pieces(sw.1)
}

/// The fragments a sequence of pieces denotes.
pub open spec fn frags_of(ps: Seq<Piece>) -> Seq<IdentifierRange> {
    ps.map_values(|p: Piece| piece_frag(p))
}

/// The fragments a stage turns one range into (destination domain).
pub open spec fn apply_stage(rules: Seq<MappingRange>, r: IdentifierRange) -> Seq<
    IdentifierRange,
> {
    frags_of(stage_pieces(rules, r))
}

pub open spec fn sum_lens(qs: Seq<IdentifierRange>) -> int
    decreases qs.len(),
{
    if qs.len() == 0 {
        0
    } else {
        qs[0].length + sum_lens(qs.drop_first())
    }
}

pub open spec fn sum_piece_lens(ps: Seq<Piece>) -> int
    decreases ps.len(),
{
    if ps.len() == 0 {
        0
    } else {
        ps[0].len + sum_piece_lens(ps.drop_first())
    }
}

pub open spec fn ranges_wf(qs: Seq<IdentifierRange>) -> bool {
    forall|i: int| 0 <= i < qs.len() ==> range_wf(#[trigger] qs[i])
}

pub open spec fn covered(qs: Seq<IdentifierRange>, x: int) -> bool {
    exists|i: int| 0 <= i < qs.len() && #[trigger] in_range(qs[i], x)
}

pub open spec fn covered_p(ps: Seq<Piece>, x: int) -> bool {
    exists|i: int| 0 <= i < ps.len() && #[trigger] in_piece(ps[i], x)
}

pub open spec fn ranges_disjoint(qs: Seq<IdentifierRange>) -> bool {
    forall|i: int, j: int, x: int|
        #![trigger in_range(qs[i], x), in_range(qs[j], x)]
        0 <= i < qs.len() && 0 <= j < qs.len() && i != j ==> !(in_range(qs[i], x) && in_range(
            qs[j],
            x,
        ))
}

pub open spec fn pieces_src_disjoint(ps: Seq<Piece>) -> bool {
    forall|i: int, j: int, x: int|
        #![trigger in_piece(ps[i], x), in_piece(ps[j], x)]
        0 <= i < ps.len() && 0 <= j < ps.len() && i != j ==> !(in_piece(ps[i], x) && in_piece(
            ps[j],
            x,
        ))
}

pub open spec fn pieces_ranges_disjoint(ps: Seq<Piece>, qs: Seq<IdentifierRange>) -> bool {
    forall|i: int, j: int, x: int|
        #![trigger in_piece(ps[i], x), in_range(qs[j], x)]
        0 <= i < ps.len() && 0 <= j < qs.len() ==> !(in_piece(ps[i], x) && in_range(qs[j], x))
}

/// A well-formed piece denotes a well-formed fragment.
pub open spec fn piece_wf(p: Piece) -> bool {
    &&& 0 < p.len <= u64::MAX
    &&& 0 <= p.src
    &&& p.src + p.len <= u64::MAX + 1
    &&& 0 <= p.src + p.off
    &&& p.src + p.off + p.len <= u64::MAX + 1
}

pub open spec fn pieces_wf(ps: Seq<Piece>) -> bool {
    forall|i: int| 0 <= i < ps.len() ==> piece_wf(#[trigger] ps[i])
}

/// Everything the splitting sweep guarantees, relative to the pending ranges
/// it started from.
pub open spec fn sweep_post(
    rules: Seq<MappingRange>,
    qs: Seq<IdentifierRange>,
    ps: Seq<Piece>,
    rs: Seq<IdentifierRange>,
) -> bool {
    &&& ranges_wf(rs)
    &&& pieces_wf(ps)
    &&& ranges_disjoint(rs)
    &&& pieces_src_disjoint(ps)
    &&& pieces_ranges_disjoint(ps, rs)
    &&& sum_piece_lens(ps) + sum_lens(rs) == sum_lens(qs)
    &&& forall|x: int| covered(qs, x) <==> (covered_p(ps, x) || covered(rs, x))
    &&& forall|x: int| covered(rs, x) ==> covered(qs, x) && map_id(rules, x) == x
    &&& forall|i: int, x: int|
        0 <= i < ps.len() && #[trigger] in_piece(ps[i], x) ==> covered(qs, x) && map_id(rules, x)
            == x + ps[i].off
}

/// What sweeping a single rule guarantees: hit pieces carry that rule's
/// offset and lie inside its source interval; leftovers are the uncovered
/// remainder.
pub open spec fn sweep_rule_post(
    m: MappingRange,
    qs: Seq<IdentifierRange>,
    ps: Seq<Piece>,
    rs: Seq<IdentifierRange>,
) -> bool {
    &&& ranges_wf(rs)
    &&& pieces_wf(ps)
    &&& ranges_disjoint(rs)
    &&& pieces_src_disjoint(ps)
    &&& pieces_ranges_disjoint(ps, rs)
    &&& sum_piece_lens(ps) + sum_lens(rs) == sum_lens(qs)
    &&& forall|x: int| covered(qs, x) <==> (covered_p(ps, x) || covered(rs, x))
    &&& forall|x: int| covered(rs, x) ==> covered(qs, x) && !rule_covers(m, x)
    &&& forall|i: int, x: int|
        0 <= i < ps.len() && #[trigger] in_piece(ps[i], x) ==> covered(qs, x) && rule_covers(m, x)
            && ps[i].off == m.dest_offset
}

pub proof fn lemma_covered_concat(a: Seq<IdentifierRange>, b: Seq<IdentifierRange>)
    ensures
        forall|x: int| #[trigger] covered(a + b, x) <==> covered(a, x) || covered(b, x),
{
    assert forall|x: int| #[trigger] covered(a + b, x) implies covered(a, x) || covered(b, x) by {
        let i = choose|i: int| 0 <= i < (a + b).len() && #[trigger] in_range((a + b)[i], x);
        if i < a.len() {
            assert(in_range(a[i], x));
        } else {
            assert(in_range(b[i - a.len()], x));
        }
    }
    assert forall|x: int| covered(a, x) || covered(b, x) implies #[trigger] covered(a + b, x) by {
        if covered(a, x) {
            let i = choose|i: int| 0 <= i < a.len() && #[trigger] in_range(a[i], x);
            assert(in_range((a + b)[i], x));
        } else {
            let i = choose|i: int| 0 <= i < b.len() && #[trigger] in_range(b[i], x);
            assert(in_range((a + b)[a.len() + i], x));
        }
    }
}

proof fn lemma_covered_p_concat(a: Seq<Piece>, b: Seq<Piece>)
    ensures
        forall|x: int| #[trigger] covered_p(a + b, x) <==> covered_p(a, x) || covered_p(b, x),
{
    assert forall|x: int| #[trigger] covered_p(a + b, x) implies covered_p(a, x) || covered_p(
        b,
        x,
    ) by {
        let i = choose|i: int| 0 <= i < (a + b).len() && #[trigger] in_piece((a + b)[i], x);
        if i < a.len() {
            assert(in_piece(a[i], x));
        } else {
            assert(in_piece(b[i - a.len()], x));
        }
    }
    assert forall|x: int| covered_p(a, x) || covered_p(b, x) implies #[trigger] covered_p(
        a + b,
        x,
    ) by {
        if covered_p(a, x) {
            let i = choose|i: int| 0 <= i < a.len() && #[trigger] in_piece(a[i], x);
            assert(in_piece((a + b)[i], x));
        } else {
            let i = choose|i: int| 0 <= i < b.len() && #[trigger] in_piece(b[i], x);
            assert(in_piece((a + b)[a.len() + i], x));
        }
    }
}

pub proof fn lemma_sum_lens_concat(a: Seq<IdentifierRange>, b: Seq<IdentifierRange>)
    ensures
        sum_lens(a + b) == sum_lens(a) + sum_lens(b),
    decreases a.len(),
{
    if a.len() == 0 {
        assert(a + b =~= b);
    } else {
        assert((a + b).drop_first() =~= a.drop_first() + b);
        lemma_sum_lens_concat(a.drop_first(), b);
    }
}

proof fn lemma_sum_piece_lens_concat(a: Seq<Piece>, b: Seq<Piece>)
    ensures
        sum_piece_lens(a + b) == sum_piece_lens(a) + sum_piece_lens(b),
    decreases a.len(),
{
    if a.len() == 0 {
        assert(a + b =~= b);
    } else {
        assert((a + b).drop_first() =~= a.drop_first() + b);
        lemma_sum_piece_lens_concat(a.drop_first(), b);
    }
}

/// Splitting one pending range against one rule meets the single-rule
/// contract for the one-element pending list.
proof fn lemma_split_one(m: MappingRange, q: IdentifierRange)
    requires
        rule_wf(m),
        range_wf(q),
    ensures
        sweep_rule_post(m, seq![q], split_one(m, q).0, split_one(m, q).1),
{
    let ps = split_one(m, q).0;
    let rs = split_one(m, q).1;
    assert(covered(seq![q], q.start as int)) by {
        assert(in_range(seq![q][0], q.start as int));
    }
    assert forall|x: int| covered(seq![q], x) implies in_range(q, x) by {
        let i = choose|i: int| 0 <= i < seq![q].len() && #[trigger] in_range(seq![q][i], x);
    }
    assert forall|x: int| in_range(q, x) implies covered(seq![q], x) by {
        assert(in_range(seq![q][0], x));
    }
    assert forall|x: int| covered(qs_one(q), x) implies (covered_p(ps, x) || covered(rs, x)) by {
        assert(in_range(q, x));
        if ps.len() == 1 && in_piece(ps[0], x) {
            assert(covered_p(ps, x));
        } else if rs.len() >= 1 && in_range(rs[0], x) {
            assert(covered(rs, x));
        } else {
            assert(rs.len() == 2 && in_range(rs[1], x));
            assert(covered(rs, x));
        }
    }
    assert forall|x: int| covered_p(ps, x) || covered(rs, x) implies covered(qs_one(q), x) by {
        if covered_p(ps, x) {
            let i = choose|i: int| 0 <= i < ps.len() && #[trigger] in_piece(ps[i], x);
            assert(in_range(q, x));
        } else {
            let i = choose|i: int| 0 <= i < rs.len() && #[trigger] in_range(rs[i], x);
            assert(in_range(q, x));
        }
    }
    assert(sum_piece_lens(ps) + sum_lens(rs) == sum_lens(qs_one(q))) by {
        assert(sum_lens(qs_one(q)) == q.length + sum_lens(Seq::<IdentifierRange>::empty())) by {
            assert(qs_one(q).drop_first() =~= Seq::<IdentifierRange>::empty());
        }
        if ps.len() == 1 {
            assert(sum_piece_lens(ps) == ps[0].len + sum_piece_lens(Seq::<Piece>::empty())) by {
                assert(ps.drop_first() =~= Seq::<Piece>::empty());
            }
            if rs.len() == 2 {
                let rs1 = rs.drop_first();
                assert(rs1[0] == rs[1]);
                assert(rs1.drop_first() =~= Seq::<IdentifierRange>::empty());
                assert(sum_lens(Seq::<IdentifierRange>::empty()) == 0);
                assert(sum_lens(rs1) == rs[1].length + sum_lens(rs1.drop_first()));
                assert(sum_lens(rs) == rs[0].length + sum_lens(rs1));
            } else if rs.len() == 1 {
                assert(sum_lens(rs) == rs[0].length + sum_lens(Seq::<IdentifierRange>::empty()))
                    by {
                    assert(rs.drop_first() =~= Seq::<IdentifierRange>::empty());
                }
            }
        } else {
            assert(rs =~= seq![q]);
        }
    }
    assert(ranges_wf(rs));
    assert(pieces_wf(ps));
    assert(ranges_disjoint(rs));
    assert(pieces_src_disjoint(ps));
    assert(pieces_ranges_disjoint(ps, rs));
    assert(forall|x: int| covered(seq![q], x) <==> (covered_p(ps, x) || covered(rs, x)));
    assert(forall|x: int| covered(rs, x) ==> covered(seq![q], x) && !rule_covers(m, x));
    assert forall|i: int, x: int|
        0 <= i < ps.len() && #[trigger] in_piece(ps[i], x) implies covered(seq![q], x)
        && rule_covers(m, x) && ps[i].off == m.dest_offset by {
        assert(i == 0);
        assert(in_range(q, x));
        assert(rule_covers(m, x));
        assert(covered(seq![q], x));
    }
}

/// The one-element pending list.
pub open spec fn qs_one(q: IdentifierRange) -> Seq<IdentifierRange> {
    seq![q]
}

proof fn lemma_disjoint_concat_r(a: Seq<IdentifierRange>, b: Seq<IdentifierRange>)
    requires
        ranges_disjoint(a),
        ranges_disjoint(b),
        forall|x: int| !(covered(a, x) && covered(b, x)),
    ensures
        ranges_disjoint(a + b),
{
    let c = a + b;
    assert forall|i: int, j: int, x: int|
        #![trigger in_range(c[i], x), in_range(c[j], x)]
        0 <= i < c.len() && 0 <= j < c.len() && i != j implies !(in_range(c[i], x) && in_range(
        c[j],
        x,
    )) by {
        if in_range(c[i], x) && in_range(c[j], x) {
            if i < a.len() && j < a.len() {
                assert(in_range(a[i], x) && in_range(a[j], x));
            } else if i >= a.len() && j >= a.len() {
                assert(in_range(b[i - a.len()], x) && in_range(b[j - a.len()], x));
            } else if i < a.len() {
                assert(in_range(a[i], x) && in_range(b[j - a.len()], x));
                assert(covered(a, x) && covered(b, x));
            } else {
                assert(in_range(a[j], x) && in_range(b[i - a.len()], x));
                assert(covered(a, x) && covered(b, x));
            }
        }
    }
}

proof fn lemma_disjoint_concat_p(a: Seq<Piece>, b: Seq<Piece>)
    requires
        pieces_src_disjoint(a),
        pieces_src_disjoint(b),
        forall|x: int| !(covered_p(a, x) && covered_p(b, x)),
    ensures
        pieces_src_disjoint(a + b),
{
    let c = a + b;
    assert forall|i: int, j: int, x: int|
        #![trigger in_piece(c[i], x), in_piece(c[j], x)]
        0 <= i < c.len() && 0 <= j < c.len() && i != j implies !(in_piece(c[i], x) && in_piece(
        c[j],
        x,
    )) by {
        if in_piece(c[i], x) && in_piece(c[j], x) {
            if i < a.len() && j < a.len() {
                assert(in_piece(a[i], x) && in_piece(a[j], x));
            } else if i >= a.len() && j >= a.len() {
                assert(in_piece(b[i - a.len()], x) && in_piece(b[j - a.len()], x));
            } else if i < a.len() {
                assert(in_piece(a[i], x) && in_piece(b[j - a.len()], x));
                assert(covered_p(a, x) && covered_p(b, x));
            } else {
                assert(in_piece(a[j], x) && in_piece(b[i - a.len()], x));
                assert(covered_p(a, x) && covered_p(b, x));
            }
        }
    }
}

proof fn lemma_pr_disjoint_concat(
    pa: Seq<Piece>,
    pb: Seq<Piece>,
    rs: Seq<IdentifierRange>,
)
    requires
        pieces_ranges_disjoint(pa, rs),
        pieces_ranges_disjoint(pb, rs),
    ensures
        pieces_ranges_disjoint(pa + pb, rs),
{
    let c = pa + pb;
    assert forall|i: int, j: int, x: int|
        #![trigger in_piece(c[i], x), in_range(rs[j], x)]
        0 <= i < c.len() && 0 <= j < rs.len() implies !(in_piece(c[i], x) && in_range(
        rs[j],
        x,
    )) by {
        if in_piece(c[i], x) && in_range(rs[j], x) {
            if i < pa.len() {
                assert(in_piece(pa[i], x));
            } else {
                assert(in_piece(pb[i - pa.len()], x));
            }
        }
    }
}

/// One rule swept over a disjoint pending list meets the single-rule
/// contract.
proof fn lemma_sweep_rule(m: MappingRange, qs: Seq<IdentifierRange>)
    requires
        rule_wf(m),
        ranges_wf(qs),
        ranges_disjoint(qs),
    ensures
        sweep_rule_post(m, qs, sweep_rule(m, qs).0, sweep_rule(m, qs).1),
    decreases qs.len(),
{
    let ps = sweep_rule(m, qs).0;
    let rs = sweep_rule(m, qs).1;
    if qs.len() == 0 {
        assert(forall|x: int| !covered(qs, x));
        assert(forall|x: int| !covered_p(ps, x) && !covered(rs, x));
    } else {
        let q0 = qs[0];
        let tail = qs.drop_first();
        let psa = split_one(m, q0).0;
        let rsa = split_one(m, q0).1;
        let psb = sweep_rule(m, tail).0;
        let rsb = sweep_rule(m, tail).1;
        assert(ps == psa + psb && rs == rsa + rsb);
        lemma_split_one(m, q0);
        assert(ranges_wf(tail) && ranges_disjoint(tail));
        lemma_sweep_rule(m, tail);
        // the head range and the tail list cover disjoint identifiers
        assert(qs =~= seq![q0] + tail);
        lemma_covered_concat(seq![q0], tail);
        assert forall|x: int| covered(seq![q0], x) implies in_range(q0, x) by {
            let i = choose|i: int|
                0 <= i < seq![q0].len() && #[trigger] in_range(seq![q0][i], x);
        }
        assert forall|x: int| in_range(q0, x) implies covered(seq![q0], x) by {
            assert(in_range(seq![q0][0], x));
        }
        assert forall|x: int| !(covered(seq![q0], x) && covered(tail, x)) by {
            if covered(seq![q0], x) && covered(tail, x) {
                let j = choose|j: int| 0 <= j < tail.len() && #[trigger] in_range(tail[j], x);
                assert(in_range(qs[0], x) && in_range(qs[j + 1], x));
            }
        }
        // combine the two sub-results
        lemma_covered_concat(rsa, rsb);
        lemma_covered_p_concat(psa, psb);
        lemma_sum_lens_concat(rsa, rsb);
        lemma_sum_piece_lens_concat(psa, psb);
        assert(sum_lens(qs) == q0.length + sum_lens(tail));
        assert(sum_lens(seq![q0]) == q0.length + sum_lens(Seq::<IdentifierRange>::empty())) by {
            assert(seq![q0].drop_first() =~= Seq::<IdentifierRange>::empty());
        }
        assert(sum_piece_lens(ps) + sum_lens(rs) == sum_lens(qs));
        lemma_disjoint_concat_r(rsa, rsb);
        lemma_disjoint_concat_p(psa, psb);
        assert(pieces_ranges_disjoint(psa, rsb)) by {
            assert forall|i: int, j: int, x: int|
                #![trigger in_piece(psa[i], x), in_range(rsb[j], x)]
                0 <= i < psa.len() && 0 <= j < rsb.len() implies !(in_piece(psa[i], x)
                && in_range(rsb[j], x)) by {
                if in_piece(psa[i], x) && in_range(rsb[j], x) {
                    assert(covered(seq![q0], x) && covered(tail, x));
                }
            }
        }
        assert(pieces_ranges_disjoint(psb, rsa)) by {
            assert forall|i: int, j: int, x: int|
                #![trigger in_piece(psb[i], x), in_range(rsa[j], x)]
                0 <= i < psb.len() && 0 <= j < rsa.len() implies !(in_piece(psb[i], x)
                && in_range(rsa[j], x)) by {
                if in_piece(psb[i], x) && in_range(rsa[j], x) {
                    assert(covered(seq![q0], x) && covered(tail, x));
                }
            }
        }
        assert(pieces_ranges_disjoint(ps, rs)) by {
            assert forall|i: int, j: int, x: int|
                #![trigger in_piece(ps[i], x), in_range(rs[j], x)]
                0 <= i < ps.len() && 0 <= j < rs.len() implies !(in_piece(ps[i], x) && in_range(
                rs[j],
                x,
            )) by {
                if in_piece(ps[i], x) && in_range(rs[j], x) {
                    if i < psa.len() {
                        if j < rsa.len() {
                            assert(in_piece(psa[i], x) && in_range(rsa[j], x));
                        } else {
                            assert(in_piece(psa[i], x) && in_range(rsb[j - rsa.len()], x));
                        }
                    } else {
                        if j < rsa.len() {
                            assert(in_piece(psb[i - psa.len()], x) && in_range(rsa[j], x));
                        } else {
                            assert(in_piece(psb[i - psa.len()], x) && in_range(
                                rsb[j - rsa.len()],
                                x,
                            ));
                        }
                    }
                }
            }
        }
        assert forall|i: int, x: int|
            0 <= i < ps.len() && #[trigger] in_piece(ps[i], x) implies covered(qs, x)
            && rule_covers(m, x) && ps[i].off == m.dest_offset by {
            if i < psa.len() {
                assert(in_piece(psa[i], x));
            } else {
                assert(in_piece(psb[i - psa.len()], x));
            }
        }
    }
}

/// Sweeping a rule list in order: pieces carry the offset of the first rule
/// that covers them, and the leftovers are covered by no rule at all.
proof fn lemma_sweep_rules(rules: Seq<MappingRange>, qs: Seq<IdentifierRange>)
    requires
        stage_wf(rules),
        ranges_wf(qs),
        ranges_disjoint(qs),
    ensures
        sweep_post(rules, qs, sweep_rules(rules, qs).0, sweep_rules(rules, qs).1),
    decreases rules.len(),
{
    let ps = sweep_rules(rules, qs).0;
    let rs = sweep_rules(rules, qs).1;
    if rules.len() == 0 {
        assert(forall|x: int| !covered_p(ps, x));
        assert(ps + Seq::<Piece>::empty() =~= ps);
    } else {
        let m = rules[0];
        let rest = rules.drop_first();
        let psa = sweep_rule(m, qs).0;
        let rsa = sweep_rule(m, qs).1;
        let psb = sweep_rules(rest, rsa).0;
        let rsb = sweep_rules(rest, rsa).1;
        assert(ps == psa + psb && rs == rsb);
        assert(rule_wf(m));
        lemma_sweep_rule(m, qs);
        assert(stage_wf(rest)) by {
            assert(forall|i: int| 0 <= i < rest.len() ==> #[trigger] rest[i] == rules[i + 1]);
        }
        lemma_sweep_rules(rest, rsa);
        lemma_covered_p_concat(psa, psb);
        lemma_sum_piece_lens_concat(psa, psb);
        // map_id through the whole list agrees with map_id through the rest
        // on identifiers the first rule does not cover
        assert forall|x: int| covered(rsb, x) implies covered(qs, x) && map_id(rules, x) == x by {
            assert(covered(rsa, x));
            assert(!rule_covers(m, x));
            assert(map_id(rules, x) == map_id(rest, x));
        }
        assert forall|i: int, x: int|
            0 <= i < ps.len() && #[trigger] in_piece(ps[i], x) implies covered(qs, x) && map_id(
            rules,
            x,
        ) == x + ps[i].off by {
            if i < psa.len() {
                assert(in_piece(psa[i], x));
                assert(rule_covers(m, x) && psa[i].off == m.dest_offset);
            } else {
                assert(in_piece(psb[i - psa.len()], x));
                assert(covered(rsa, x));
                assert(!rule_covers(m, x));
                assert(map_id(rules, x) == map_id(rest, x));
            }
        }
        lemma_disjoint_concat_p(psa, psb);
        assert(pieces_ranges_disjoint(ps, rs)) by {
            assert forall|i: int, j: int, x: int|
                #![trigger in_piece(ps[i], x), in_range(rs[j], x)]
                0 <= i < ps.len() && 0 <= j < rs.len() implies !(in_piece(ps[i], x) && in_range(
                rs[j],
                x,
            )) by {
                if in_piece(ps[i], x) && in_range(rs[j], x) {
                    assert(covered(rsb, x));
                    if i < psa.len() {
                        assert(in_piece(psa[i], x));
                        assert(rule_covers(m, x));
                        assert(covered(rsa, x));
                    } else {
                        assert(in_piece(psb[i - psa.len()], x));
                    }
                }
            }
        }
    }
}

/// Everything the stage-level split of one range guarantees.
pub open spec fn stage_post(rules: Seq<MappingRange>, r: IdentifierRange, sp: Seq<Piece>) -> bool {
    &&& pieces_wf(sp)
    &&& pieces_src_disjoint(sp)
    &&& sum_piece_lens(sp) == r.length
    &&& forall|x: int| in_range(r, x) <==> covered_p(sp, x)
    &&& forall|i: int, x: int|
        0 <= i < sp.len() && #[trigger] in_piece(sp[i], x) ==> map_id(rules, x) == x + sp[i].off
}

proof fn lemma_id_pieces_sum(qs: Seq<IdentifierRange>)
    ensures
        sum_piece_lens(id_pieces(qs)) == sum_lens(qs),
    decreases qs.len(),
{
    if qs.len() > 0 {
        assert(id_pieces(qs).drop_first() =~= id_pieces(qs.drop_first()));
        lemma_id_pieces_sum(qs.drop_first());
    }
}

/// The master lemma: the pieces a well-formed stage cuts a well-formed range
/// into are well formed, source-disjoint, sum to the range's length, cover
/// exactly the range, and each carries the offset `map_id` assigns to every
/// identifier inside it.
pub proof fn lemma_stage_pieces(rules: Seq<MappingRange>, r: IdentifierRange)
    requires
        stage_wf(rules),
        range_wf(r),
    ensures
        stage_post(rules, r, stage_pieces(rules, r)),
{
    let sw0 = sweep_rules(rules, seq![r]).0;
    let rs = sweep_rules(rules, seq![r]).1;
    let ip = id_pieces(rs);
    let sp = stage_pieces(rules, r);
    assert(sp == sw0 + ip);
    assert(ranges_wf(seq![r])) by {
        assert(seq![r][0] == r);
    }
    assert(ranges_disjoint(seq![r]));
    lemma_sweep_rules(rules, seq![r]);
    assert forall|x: int| covered(seq![r], x) implies in_range(r, x) by {
        let i = choose|i: int| 0 <= i < seq![r].len() && #[trigger] in_range(seq![r][i], x);
    }
    assert forall|x: int| in_range(r, x) implies covered(seq![r], x) by {
        assert(in_range(seq![r][0], x));
    }
    // identity pieces denote exactly the leftover ranges
    assert(forall|i: int|
        0 <= i < rs.len() ==> #[trigger] ip[i] == (Piece {
            src: rs[i].start as int,
            len: rs[i].length as int,
            off: 0,
        }));
    assert forall|x: int| covered(rs, x) implies covered_p(ip, x) by {
        let i = choose|i: int| 0 <= i < rs.len() && #[trigger] in_range(rs[i], x);
        assert(in_piece(ip[i], x));
    }
    assert forall|x: int| covered_p(ip, x) implies covered(rs, x) by {
        let i = choose|i: int| 0 <= i < ip.len() && #[trigger] in_piece(ip[i], x);
        assert(in_range(rs[i], x));
    }
    lemma_covered_p_concat(sw0, ip);
    lemma_sum_piece_lens_concat(sw0, ip);
    lemma_id_pieces_sum(rs);
    assert(sum_lens(seq![r]) == r.length + sum_lens(Seq::<IdentifierRange>::empty())) by {
        assert(seq![r].drop_first() =~= Seq::<IdentifierRange>::empty());
    }
    assert(pieces_wf(ip)) by {
        assert forall|i: int| 0 <= i < ip.len() implies piece_wf(#[trigger] ip[i]) by {
            assert(range_wf(rs[i]));
        }
    }
    assert(pieces_src_disjoint(ip)) by {
        assert forall|i: int, j: int, x: int|
            #![trigger in_piece(ip[i], x), in_piece(ip[j], x)]
            0 <= i < ip.len() && 0 <= j < ip.len() && i != j implies !(in_piece(ip[i], x)
            && in_piece(ip[j], x)) by {
            if in_piece(ip[i], x) && in_piece(ip[j], x) {
                assert(in_range(rs[i], x) && in_range(rs[j], x));
            }
        }
    }
    assert forall|x: int| !(covered_p(sw0, x) && covered_p(ip, x)) by {
        if covered_p(sw0, x) && covered_p(ip, x) {
            let i = choose|i: int| 0 <= i < sw0.len() && #[trigger] in_piece(sw0[i], x);
            let j = choose|j: int| 0 <= j < ip.len() && #[trigger] in_piece(ip[j], x);
            assert(in_range(rs[j], x));
        }
    }
    lemma_disjoint_concat_p(sw0, ip);
    assert forall|i: int, x: int|
        0 <= i < sp.len() && #[trigger] in_piece(sp[i], x) implies map_id(rules, x) == x
        + sp[i].off by {
        if i < sw0.len() {
            assert(in_piece(sw0[i], x));
        } else {
            assert(in_piece(ip[i - sw0.len()], x));
            assert(in_range(rs[i - sw0.len()], x));
            assert(covered(rs, x));
        }
    }
    assert forall|x: int| in_range(r, x) implies covered_p(sp, x) by {
        assert(covered(seq![r], x));
    }
    assert forall|x: int| covered_p(sp, x) implies in_range(r, x) by {
        assert(covered_p(sw0, x) || covered_p(ip, x));
    }
}

/// The stage map is injective on `r` when no two identifiers of `r` land on
/// the same destination.
pub open spec fn stage_injective_on(rules: Seq<MappingRange>, r: IdentifierRange) -> bool {
    forall|x: int, y: int|
        in_range(r, x) && in_range(r, y) && #[trigger] map_id(rules, x) == #[trigger] map_id(
            rules,
            y,
        ) ==> x == y
}

proof fn lemma_frags_sum(ps: Seq<Piece>)
    requires
        pieces_wf(ps),
    ensures
        sum_lens(frags_of(ps)) == sum_piece_lens(ps),
    decreases ps.len(),
{
    if ps.len() > 0 {
        assert(frags_of(ps).drop_first() =~= frags_of(ps.drop_first()));
        lemma_frags_sum(ps.drop_first());
        assert(frags_of(ps)[0] == piece_frag(ps[0]));
        assert(piece_wf(ps[0]));
        assert(piece_frag(ps[0]).length == ps[0].len);
    }
}

/// The partition property: the fragments a stage cuts a range into are well
/// formed and their lengths sum exactly to the range's length; when the stage
/// map is injective on the range, the fragments are also pairwise disjoint.
pub proof fn lemma_stage_partition(rules: Seq<MappingRange>, r: IdentifierRange)
    requires
        stage_wf(rules),
        range_wf(r),
    ensures
        ranges_wf(apply_stage(rules, r)),
        sum_lens(apply_stage(rules, r)) == r.length,
        stage_injective_on(rules, r) ==> ranges_disjoint(apply_stage(rules, r)),
{
    lemma_stage_pieces(rules, r);
    let sp = stage_pieces(rules, r);
    let fr = apply_stage(rules, r);
    lemma_frags_sum(sp);
    assert forall|i: int| 0 <= i < fr.len() implies range_wf(#[trigger] fr[i]) by {
        assert(piece_wf(sp[i]));
        assert(fr[i] == piece_frag(sp[i]));
    }
    if stage_injective_on(rules, r) {
        assert forall|i: int, j: int, x: int|
            #![trigger in_range(fr[i], x), in_range(fr[j], x)]
            0 <= i < fr.len() && 0 <= j < fr.len() && i != j implies !(in_range(fr[i], x)
            && in_range(fr[j], x)) by {
            if in_range(fr[i], x) && in_range(fr[j], x) {
                assert(piece_wf(sp[i]) && piece_wf(sp[j]));
                assert(fr[i] == piece_frag(sp[i]) && fr[j] == piece_frag(sp[j]));
                let xi = x - sp[i].off;
                let xj = x - sp[j].off;
                assert(in_piece(sp[i], xi) && in_piece(sp[j], xj));
                assert(covered_p(sp, xi) && covered_p(sp, xj));
                assert(in_range(r, xi) && in_range(r, xj));
                assert(map_id(rules, xi) == x && map_id(rules, xj) == x);
                assert(xi == xj);
            }
        }
    }
}

/// The identity law: a stage with no rules returns its input range unchanged.
pub proof fn lemma_identity_stage(r: IdentifierRange)
    requires
        range_wf(r),
    ensures
        apply_stage(Seq::<MappingRange>::empty(), r) == seq![r],
{
    let sw = sweep_rules(Seq::<MappingRange>::empty(), seq![r]);
    assert(sw.0 =~= Seq::<Piece>::empty());
    assert(sw.1 =~= seq![r]);
    assert(stage_pieces(Seq::<MappingRange>::empty(), r) =~= id_pieces(seq![r]));
    assert(id_pieces(seq![r])[0] == Piece { src: r.start as int, len: r.length as int, off: 0 });
    assert(piece_frag(id_pieces(seq![r])[0]) == r);
    assert(apply_stage(Seq::<MappingRange>::empty(), r) =~= seq![r]);
}

/// The boundary law: the last identifier of a rule's source interval maps,
/// the first identifier past it does not (exclusive upper bound).
pub proof fn lemma_rule_boundary(m: MappingRange)
    requires
        rule_wf(m),
    ensures
        rule_covers(m, m.source_start + m.length - 1),
        !rule_covers(m, m.source_start + m.length),
        map_id(seq![m], m.source_start + m.length - 1) == m.source_start + m.length - 1
            + m.dest_offset,
        map_id(seq![m], m.source_start + m.length) == m.source_start + m.length,
{
    assert(seq![m].drop_first() =~= Seq::<MappingRange>::empty());
    let b = m.source_start + m.length;
    assert(map_id(Seq::<MappingRange>::empty(), b) == b);
    assert(map_id(seq![m], b) == map_id(seq![m].drop_first(), b));
}

impl MappingStage {
    /// Splits one range against every rule of this stage, in input order:
    /// each intersection with a rule's source interval becomes one shifted
    /// fragment, and whatever no rule covers passes through unchanged.
    pub fn apply(&self, r: &IdentifierRange) -> (out: Vec<IdentifierRange>)
        requires
            range_wf(*r),
            stage_wf(self@),
        ensures
            out@ == apply_stage(self@, *r),
    {
        let mut mapped: Vec<IdentifierRange> = Vec::new();
        let ghost mut done: Seq<Piece> = Seq::empty();
        let mut rem: Vec<IdentifierRange> = Vec::new();
        rem.push(*r);
        proof {
            assert(rem@ =~= seq![*r]);
            assert(mapped@ =~= frags_of(done));
            assert(self@.skip(0) =~= self@);
            assert(done + sweep_rules(self@, rem@).0 =~= sweep_rules(self@, rem@).0);
        }
        let n = self.rules.len();
        let mut k: usize = 0;
        while k < n
            invariant
                n == self.rules.len(),
                0 <= k <= n,
                stage_wf(self@),
                ranges_wf(rem@),
                mapped@ == frags_of(done),
                sweep_rules(self@, seq![*r]) == (
                    done + sweep_rules(self@.skip(k as int), rem@).0,
                    sweep_rules(self@.skip(k as int), rem@).1,
                ),
            decreases n - k,
        {
            let m = self.rules[k];
            proof {
                assert(rule_wf(m));
            }
            let prev = rem;
            rem = Vec::new();
            let ghost mut hits: Seq<Piece> = Seq::empty();
            let ghost base = done;
            proof {
                assert(hits + sweep_rule(m, prev@).0 =~= sweep_rule(m, prev@).0);
                assert(rem@ + sweep_rule(m, prev@).1 =~= sweep_rule(m, prev@).1);
                assert(prev@.skip(0) =~= prev@);
                assert(frags_of(base + hits) =~= frags_of(base));
            }
            let mut j: usize = 0;
            while j < prev.len()
                invariant
                    0 <= j <= prev.len(),
                    rule_wf(m),
                    ranges_wf(prev@),
                    ranges_wf(rem@),
                    mapped@ == frags_of(base + hits),
                    sweep_rule(m, prev@) == (
                        hits + sweep_rule(m, prev@.skip(j as int)).0,
                        rem@ + sweep_rule(m, prev@.skip(j as int)).1,
                    ),
                decreases prev.len() - j,
            {
                let q = prev[j];
                proof {
                    assert(range_wf(q));
                    assert(prev@.skip(j as int).drop_first() =~= prev@.skip(j as int + 1));
                    assert(prev@.skip(j as int)[0] == q);
                }
                let ghost sp_hit = split_one(m, q).0;
                let ghost sp_rest = split_one(m, q).1;
                let qlo: u64 = q.start;
                let qhi: u128 = q.start as u128 + q.length as u128;
                let mlo: u64 = m.source_start;
                let mhi: u128 = m.source_start as u128 + m.length as u128;
                let lo: u64 = if qlo >= mlo {
                    qlo
                } else {
                    mlo
                };
                let hi: u128 = if qhi <= mhi {
                    qhi
                } else {
                    mhi
                };
                if (lo as u128) < hi {
                    proof {
                        assert(hi - lo <= q.length);
                        assert(0 <= lo + m.dest_offset <= u64::MAX);
                    }
                    let len: u64 = (hi - lo as u128) as u64;
                    let dest: u64 = ((lo as i128) + (m.dest_offset as i128)) as u64;
                    let frag = IdentifierRange { start: dest, length: len };
                    mapped.push(frag);
                    if qlo < lo {
                        rem.push(IdentifierRange { start: qlo, length: lo - qlo });
                    }
                    if hi < qhi {
                        proof {
                            assert(hi <= u64::MAX);
                            assert(qhi - hi <= u64::MAX);
                        }
                        rem.push(
                            IdentifierRange { start: hi as u64, length: (qhi - hi) as u64 },
                        );
                    }
                    proof {
                        let piece = Piece {
                            src: lo as int,
                            len: len as int,
                            off: m.dest_offset as int,
                        };
                        assert(sp_hit =~= seq![piece]);
                        assert(frag == piece_frag(piece));
                        let hits2 = hits + sp_hit;
                        assert(frags_of(base + hits2) =~= frags_of(base + hits).push(frag));
                        hits = hits2;
                    }
                } else {
                    rem.push(q);
                    proof {
                        assert(sp_hit =~= Seq::<Piece>::empty());
                        assert(sp_rest =~= seq![q]);
                        assert(hits + sp_hit =~= hits);
                    }
                }
                proof {
                    assert(sweep_rule(m, prev@.skip(j as int)) == (
                        sp_hit + sweep_rule(m, prev@.skip(j as int + 1)).0,
                        sp_rest + sweep_rule(m, prev@.skip(j as int + 1)).1,
                    ));
                    assert(hits + sweep_rule(m, prev@.skip(j as int + 1)).0 =~= sweep_rule(
                        m,
                        prev@,
                    ).0);
                    assert(rem@ + sweep_rule(m, prev@.skip(j as int + 1)).1 =~= sweep_rule(
                        m,
                        prev@,
                    ).1);
                }
                j = j + 1;
            }
            proof {
                assert(prev@.skip(prev@.len() as int) =~= Seq::<IdentifierRange>::empty());
                assert(hits + Seq::<Piece>::empty() =~= hits);
                assert(rem@ + Seq::<IdentifierRange>::empty() =~= rem@);
                assert(sweep_rule(m, prev@) == (hits, rem@));
                assert(self@.skip(k as int).drop_first() =~= self@.skip(k as int + 1));
                assert(self@.skip(k as int)[0] == m);
                assert(sweep_rules(self@.skip(k as int), prev@) == (
                    hits + sweep_rules(self@.skip(k as int + 1), rem@).0,
                    sweep_rules(self@.skip(k as int + 1), rem@).1,
                ));
                done = base + hits;
                assert(done + sweep_rules(self@.skip(k as int + 1), rem@).0 =~= base + (hits
                    + sweep_rules(self@.skip(k as int + 1), rem@).0));
            }
            k = k + 1;
        }
        proof {
            assert(self@.skip(n as int) =~= Seq::<MappingRange>::empty());
            assert(done + Seq::<Piece>::empty() =~= done);
            assert(sweep_rules(self@, seq![*r]) == (done, rem@));
        }
        let mut j: usize = 0;
        while j < rem.len()
            invariant
                0 <= j <= rem.len(),
                ranges_wf(rem@),
                mapped@ == frags_of(done + id_pieces(rem@.take(j as int))),
                sweep_rules(self@, seq![*r]) == (done, rem@),
            decreases rem.len() - j,
        {
            let q = rem[j];
            mapped.push(q);
            proof {
                assert(range_wf(q));
                let piece = Piece { src: q.start as int, len: q.length as int, off: 0 };
                assert(piece_frag(piece) == q);
                assert(id_pieces(rem@.take(j as int + 1)) =~= id_pieces(
                    rem@.take(j as int),
                ).push(piece));
                assert(frags_of(done + id_pieces(rem@.take(j as int + 1))) =~= frags_of(
                    done + id_pieces(rem@.take(j as int)),
                ).push(q));
            }
            j = j + 1;
        }
        proof {
            assert(rem@.take(rem@.len() as int) =~= rem@);
            assert(mapped@ =~= apply_stage(self@, *r));
        }
        mapped
    }
}

} // verus!
