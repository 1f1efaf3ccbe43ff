//! The pipeline driver and the minimum reducer.
//!
//! `resolve` pushes a set of identifier ranges through an ordered sequence of
//! mapping stages, flattening the fragments each stage produces before the
//! next stage runs; `minimum` reports the smallest start value of the final
//! fragments.  The number of fragments grows with the number of rules, never
//! with the width of the ranges.

use crate::ranges::IdentifierRange;
use crate::ranges::MappingRange;
use crate::ranges::MappingStage;
use crate::ranges::apply_stage;
use crate::ranges::covered;
use crate::ranges::in_range;
use crate::ranges::lemma_covered_concat;
use crate::ranges::lemma_stage_partition;
use crate::ranges::lemma_stage_pieces;
use crate::ranges::lemma_sum_lens_concat;
use crate::ranges::map_id;
use crate::ranges::piece_frag;
use crate::ranges::piece_wf;
use crate::ranges::in_piece;
use crate::ranges::covered_p;
use crate::ranges::range_wf;
use crate::ranges::ranges_wf;
use crate::ranges::stage_pieces;
use crate::ranges::stage_wf;
use crate::ranges::sum_lens;
use vstd::prelude::*;

verus! {

/// Reported when the minimum of an empty range collection is requested.
#[derive(Clone, Copy, PartialEq, Eq, Structural, Debug)]
pub struct EmptyResultError;

/// One stage applied to every range of a working set, fragments flattened in
/// input order.
pub open spec fn apply_stage_all(rules: Seq<MappingRange>, qs: Seq<IdentifierRange>) -> Seq<
    IdentifierRange,
>
    decreases qs.len(),
{
    if qs.len() == 0 {
        Seq::<IdentifierRange>::empty()
    } else {
        apply_stage(rules, qs[0]) + apply_stage_all(rules, qs.drop_first())
    }
}

/// The whole pipeline applied to a working set, stage by stage.
pub open spec fn resolve_spec(stages: Seq<Seq<MappingRange>>, qs: Seq<IdentifierRange>) -> Seq<
    IdentifierRange,
>
    decreases stages.len(),
{
    if stages.len() == 0 {
        qs
    } else {
        resolve_spec(stages.drop_first(), apply_stage_all(stages[0], qs))
    }
}

/// Where one identifier ends up after the whole pipeline.
pub open spec fn resolve_id(stages: Seq<Seq<MappingRange>>, x: int) -> int
    decreases stages.len(),
{
    if stages.len() == 0 {
        x
    } else {
        resolve_id(stages.drop_first(), map_id(stages[0], x))
    }
}

pub open spec fn pipeline_wf(stages: Seq<Seq<MappingRange>>) -> bool {
    forall|i: int| 0 <= i < stages.len() ==> stage_wf(#[trigger] stages[i])
}

/// The rule lists of a pipeline of stages.
pub open spec fn stage_views(p: Seq<MappingStage>) -> Seq<Seq<MappingRange>> {
    Seq::new(p.len(), |i: int| p[i]@)
}

/// One stage neither loses nor invents identifiers: a fragment covers `y`
/// exactly when some identifier of the input range maps to `y`.
pub proof fn lemma_apply_stage_coverage(rules: Seq<MappingRange>, r: IdentifierRange)
    requires
        stage_wf(rules),
        range_wf(r),
    ensures
        forall|y: int|
            #[trigger] covered(apply_stage(rules, r), y) <==> exists|x: int|
                in_range(r, x) && #[trigger] map_id(rules, x) == y,
{
    lemma_stage_pieces(rules, r);
    let sp = stage_pieces(rules, r);
    let fr = apply_stage(rules, r);
    assert forall|y: int| #[trigger] covered(fr, y) implies exists|x: int|
        in_range(r, x) && #[trigger] map_id(rules, x) == y by {
        let i = choose|i: int| 0 <= i < fr.len() && #[trigger] in_range(fr[i], y);
        assert(piece_wf(sp[i]));
        assert(fr[i] == piece_frag(sp[i]));
        let x = y - sp[i].off;
        assert(in_piece(sp[i], x));
        assert(covered_p(sp, x));
        assert(in_range(r, x));
        assert(map_id(rules, x) == y);
    }
    assert forall|y: int|
        exists|x: int| in_range(r, x) && #[trigger] map_id(rules, x) == y implies #[trigger]
    covered(fr, y) by {
        let x = choose|x: int| in_range(r, x) && #[trigger] map_id(rules, x) == y;
        assert(covered_p(sp, x));
        let i = choose|i: int| 0 <= i < sp.len() && #[trigger] in_piece(sp[i], x);
        assert(map_id(rules, x) == x + sp[i].off);
        assert(piece_wf(sp[i]));
        assert(fr[i] == piece_frag(sp[i]));
        assert(in_range(fr[i], y));
    }
}

/// Flattening preserves coverage, well-formedness and total length across a
/// whole working set.
pub proof fn lemma_apply_all(rules: Seq<MappingRange>, qs: Seq<IdentifierRange>)
    requires
        stage_wf(rules),
        ranges_wf(qs),
    ensures
        ranges_wf(apply_stage_all(rules, qs)),
        sum_lens(apply_stage_all(rules, qs)) == sum_lens(qs),
        forall|y: int|
            #[trigger] covered(apply_stage_all(rules, qs), y) <==> exists|x: int|
                covered(qs, x) && #[trigger] map_id(rules, x) == y,
    decreases qs.len(),
{
    let out = apply_stage_all(rules, qs);
    if qs.len() == 0 {
    } else {
        let q0 = qs[0];
        let tail = qs.drop_first();
        let a = apply_stage(rules, q0);
        let b = apply_stage_all(rules, tail);
        assert(range_wf(q0));
        lemma_stage_partition(rules, q0);
        lemma_apply_stage_coverage(rules, q0);
        lemma_apply_all(rules, tail);
        lemma_covered_concat(a, b);
        lemma_sum_lens_concat(a, b);
        assert(sum_lens(qs) == q0.length + sum_lens(tail));
        assert forall|y: int| #[trigger] covered(out, y) implies exists|x: int|
            covered(qs, x) && #[trigger] map_id(rules, x) == y by {
            if covered(a, y) {
                let x = choose|x: int| in_range(q0, x) && #[trigger] map_id(rules, x) == y;
                assert(in_range(qs[0], x));
                assert(covered(qs, x));
            } else {
                assert(covered(b, y));
                let x = choose|x: int| covered(tail, x) && #[trigger] map_id(rules, x) == y;
                let i = choose|i: int| 0 <= i < tail.len() && #[trigger] in_range(tail[i], x);
                assert(in_range(qs[i + 1], x));
                assert(covered(qs, x));
            }
        }
        assert forall|y: int|
            exists|x: int| covered(qs, x) && #[trigger] map_id(rules, x) == y implies #[trigger]
        covered(out, y) by {
            let x = choose|x: int| covered(qs, x) && #[trigger] map_id(rules, x) == y;
            let i = choose|i: int| 0 <= i < qs.len() && #[trigger] in_range(qs[i], x);
            if i == 0 {
                assert(in_range(q0, x));
                assert(covered(a, y));
            } else {
                assert(in_range(tail[i - 1], x));
                assert(covered(tail, x));
                assert(covered(b, y));
            }
        }
    }
}

/// The whole pipeline neither loses nor invents identifiers, keeps every
/// fragment well formed, and conserves the total number of identifiers.
pub proof fn lemma_resolve_semantics(stages: Seq<Seq<MappingRange>>, qs: Seq<IdentifierRange>)
    requires
        pipeline_wf(stages),
        ranges_wf(qs),
    ensures
        ranges_wf(resolve_spec(stages, qs)),
        sum_lens(resolve_spec(stages, qs)) == sum_lens(qs),
        forall|y: int|
            #[trigger] covered(resolve_spec(stages, qs), y) <==> exists|x: int|
                covered(qs, x) && #[trigger] resolve_id(stages, x) == y,
    decreases stages.len(),
{
    let out = resolve_spec(stages, qs);
    if stages.len() == 0 {
        assert forall|y: int| #[trigger] covered(out, y) implies exists|x: int|
            covered(qs, x) && #[trigger] resolve_id(stages, x) == y by {
            assert(covered(qs, y) && resolve_id(stages, y) == y);
        }
        assert forall|y: int|
            exists|x: int| covered(qs, x) && #[trigger] resolve_id(stages, x) == y implies
        #[trigger] covered(out, y) by {
            let x = choose|x: int| covered(qs, x) && #[trigger] resolve_id(stages, x) == y;
        }
    } else {
        let s0 = stages[0];
        let rest = stages.drop_first();
        let mid = apply_stage_all(s0, qs);
        assert(stage_wf(s0));
        lemma_apply_all(s0, qs);
        assert(pipeline_wf(rest)) by {
            assert(forall|i: int| 0 <= i < rest.len() ==> #[trigger] rest[i] == stages[i + 1]);
        }
        lemma_resolve_semantics(rest, mid);
        assert forall|y: int| #[trigger] covered(out, y) implies exists|x: int|
            covered(qs, x) && #[trigger] resolve_id(stages, x) == y by {
            let z = choose|z: int| covered(mid, z) && #[trigger] resolve_id(rest, z) == y;
            let x = choose|x: int| covered(qs, x) && #[trigger] map_id(s0, x) == z;
            assert(resolve_id(stages, x) == resolve_id(rest, map_id(s0, x)));
            assert(resolve_id(stages, x) == y);
        }
        assert forall|y: int|
            exists|x: int| covered(qs, x) && #[trigger] resolve_id(stages, x) == y implies
        #[trigger] covered(out, y) by {
            let x = choose|x: int| covered(qs, x) && #[trigger] resolve_id(stages, x) == y;
            let z = map_id(s0, x);
            assert(covered(mid, z)) by {
                assert(covered(qs, x) && map_id(s0, x) == z);
            }
            assert(resolve_id(rest, z) == y);
            assert(covered(out, y)) by {
                assert(covered(mid, z) && resolve_id(rest, z) == y);
            }
        }
    }
}

/// The empty-pipeline law: resolving through no stages returns the seed
/// ranges unchanged.
pub proof fn lemma_empty_pipeline(qs: Seq<IdentifierRange>)
    ensures
        resolve_spec(Seq::<Seq<MappingRange>>::empty(), qs) == qs,
{
}

/// The composition law: resolving through a pipeline split anywhere into two
/// halves, one after the other, produces exactly the fragments the whole
/// pipeline produces.
pub proof fn lemma_pipeline_composition(
    s1: Seq<Seq<MappingRange>>,
    s2: Seq<Seq<MappingRange>>,
    qs: Seq<IdentifierRange>,
)
    ensures
        resolve_spec(s1 + s2, qs) == resolve_spec(s2, resolve_spec(s1, qs)),
    decreases s1.len(),
{
    if s1.len() == 0 {
        assert(s1 + s2 =~= s2);
    } else {
        assert((s1 + s2)[0] == s1[0]);
        assert((s1 + s2).drop_first() =~= s1.drop_first() + s2);
        lemma_pipeline_composition(s1.drop_first(), s2, apply_stage_all(s1[0], qs));
    }
}

/// Pushes every seed range through every stage in pipeline order.  No stage
/// is skipped and no fragment is dropped.
pub fn resolve(seeds: &Vec<IdentifierRange>, pipeline: &Vec<MappingStage>) -> (out: Vec<
    IdentifierRange,
>)
    requires
        ranges_wf(seeds@),
        pipeline_wf(stage_views(pipeline@)),
    ensures
        out@ == resolve_spec(stage_views(pipeline@), seeds@),
        ranges_wf(out@),
{
    let ghost views = stage_views(pipeline@);
    let mut cur: Vec<IdentifierRange> = Vec::new();
    let mut i: usize = 0;
    while i < seeds.len()
        invariant
            0 <= i <= seeds.len(),
            cur@ == seeds@.take(i as int),
        decreases seeds.len() - i,
    {
        cur.push(seeds[i]);
        proof {
            assert(seeds@.take(i as int + 1) =~= seeds@.take(i as int).push(seeds@[i as int]));
        }
        i = i + 1;
    }
    proof {
        assert(seeds@.take(seeds@.len() as int) =~= seeds@);
        assert(views.skip(0) =~= views);
    }
    let mut k: usize = 0;
    while k < pipeline.len()
        invariant
            0 <= k <= pipeline.len(),
            ranges_wf(cur@),
            pipeline_wf(views),
            views == stage_views(pipeline@),
            resolve_spec(views.skip(k as int), cur@) == resolve_spec(views, seeds@),
        decreases pipeline.len() - k,
    {
        let stage = &pipeline[k];
        proof {
            assert(views[k as int] == stage@);
            assert(stage_wf(stage@));
            assert(views.skip(k as int).drop_first() =~= views.skip(k as int + 1));
            assert(views.skip(k as int)[0] == views[k as int]);
        }
        let mut next: Vec<IdentifierRange> = Vec::new();
        let mut j: usize = 0;
        proof {
            assert(cur@.skip(0) =~= cur@);
            assert(next@ + apply_stage_all(stage@, cur@) =~= apply_stage_all(stage@, cur@));
        }
        while j < cur.len()
            invariant
                0 <= j <= cur.len(),
                stage_wf(stage@),
                ranges_wf(cur@),
                ranges_wf(next@),
                apply_stage_all(stage@, cur@) == next@ + apply_stage_all(
                    stage@,
                    cur@.skip(j as int),
                ),
            decreases cur.len() - j,
        {
            let r = cur[j];
            proof {
                assert(range_wf(r));
                assert(cur@.skip(j as int).drop_first() =~= cur@.skip(j as int + 1));
                assert(cur@.skip(j as int)[0] == r);
            }
            let frags = stage.apply(&r);
            proof {
                lemma_stage_partition(stage@, r);
            }
            let mut t: usize = 0;
            let ghost next_base = next@;
            while t < frags.len()
                invariant
                    0 <= t <= frags.len(),
                    ranges_wf(frags@),
                    ranges_wf(next@),
                    next@ == next_base + frags@.take(t as int),
                decreases frags.len() - t,
            {
                next.push(frags[t]);
                proof {
                    assert(frags@.take(t as int + 1) =~= frags@.take(t as int).push(
                        frags@[t as int],
                    ));
                }
                t = t + 1;
            }
            proof {
                assert(frags@.take(frags@.len() as int) =~= frags@);
                assert(next@ =~= next_base + apply_stage(stage@, r));
                assert(apply_stage_all(stage@, cur@.skip(j as int)) == apply_stage(stage@, r)
                    + apply_stage_all(stage@, cur@.skip(j as int + 1)));
                assert(next_base + (apply_stage(stage@, r) + apply_stage_all(
                    stage@,
                    cur@.skip(j as int + 1),
                )) =~= next@ + apply_stage_all(stage@, cur@.skip(j as int + 1)));
            }
            j = j + 1;
        }
        proof {
            assert(cur@.skip(cur@.len() as int) =~= Seq::<IdentifierRange>::empty());
            assert(apply_stage_all(stage@, Seq::<IdentifierRange>::empty())
                =~= Seq::<IdentifierRange>::empty());
            assert(next@ + Seq::<IdentifierRange>::empty() =~= next@);
            assert(next@ == apply_stage_all(stage@, cur@));
        }
        cur = next;
        k = k + 1;
    }
    proof {
        assert(views.skip(pipeline@.len() as int) =~= Seq::<Seq<MappingRange>>::empty());
    }
    cur
}

/// Whether `v` is the smallest start value of any range in the collection.
pub open spec fn is_min_start(qs: Seq<IdentifierRange>, v: u64) -> bool {
    &&& exists|i: int| 0 <= i < qs.len() && #[trigger] qs[i].start == v
    &&& forall|i: int| 0 <= i < qs.len() ==> v <= #[trigger] qs[i].start
}

/// The smallest start value of well-formed ranges is also the smallest
/// identifier any of them covers, so `minimum` over the resolver's output
/// reports the smallest reachable final identifier.
pub proof fn lemma_min_start_is_min_covered(qs: Seq<IdentifierRange>, v: u64)
    requires
        ranges_wf(qs),
        is_min_start(qs, v),
    ensures
        covered(qs, v as int),
        forall|y: int| covered(qs, y) ==> v <= y,
{
    let i = choose|i: int| 0 <= i < qs.len() && #[trigger] qs[i].start == v;
    assert(range_wf(qs[i]));
    assert(in_range(qs[i], v as int));
    assert forall|y: int| covered(qs, y) implies v <= y by {
        let j = choose|j: int| 0 <= j < qs.len() && #[trigger] in_range(qs[j], y);
    }
}

/// Reports the smallest start value across all ranges; an empty collection is
/// an explicit error, never a silent default.
pub fn minimum(ranges: &Vec<IdentifierRange>) -> (r: Result<u64, EmptyResultError>)
    ensures
        r is Ok <==> ranges@.len() > 0,
        r matches Ok(v) ==> is_min_start(ranges@, v),
{
    if ranges.len() == 0 {
        return Err(EmptyResultError);
    }
    let mut best: u64 = ranges[0].start;
    let mut i: usize = 1;
    while i < ranges.len()
        invariant
            1 <= i <= ranges@.len(),
            exists|j: int| 0 <= j < i && #[trigger] ranges@[j].start == best,
            forall|j: int| 0 <= j < i ==> best <= #[trigger] ranges@[j].start,
        decreases ranges.len() - i,
    {
        if ranges[i].start < best {
            best = ranges[i].start;
        }
        i = i + 1;
    }
    Ok(best)
}

} // verus!
