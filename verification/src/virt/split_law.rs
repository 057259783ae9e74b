//! What a plan of the adaptive split keeps to: which sequences are shared, which
//! repetitions are rolled up, and what the configuration asks of them.

use vstd::prelude::*;

use crate::ir::{IRBlockView, StmtView};
use crate::virt::adaptive_cfg::AdaptiveSplitConfig;
use crate::virt::adaptive_emit::{
    all_cuts, block_cuts, is_cut, owner, owner_among, region_of, region_rows, region_start,
    round_starts, row_kind, rows_of_region, split_regions, split_rows,
};
use crate::virt::bytecode::{
    BytecodeRowKind, OperandMode, RegionKindView, RegionMetaView, TripCount,
};
use crate::virt::canon::{canon_stmt, canon_stmts};
use crate::virt::cfg_hints::{hinted_loops, HintedLoop};
use crate::virt::layout::{RerollLoopSpec, SegmentInvoke, StmtRange};
use crate::virt::pieces::{hands_on, Row};
use crate::virt::split::{
    all_windows, block_rest, block_windows, candidates, covered, find_group, first_uncovered,
    free_windows, group_gain, grouped, is_candidate, last_uncovered, member_range, range_overlaps,
    recurs, repeats, reroll_body, segment_range, split_view, take_block, take_blocks, take_group,
    take_groups, take_hint, take_hints, window_key, windows_at, windows_before, with_candidate,
    with_core_calls, with_loop, SplitView, WindowOccurrence,
};

verus! {

proof fn lemma_either<A>(a: Seq<A>, b: Seq<A>, x: A)
    ensures
        (a + b).contains(x) <==> a.contains(x) || b.contains(x),
{
    if a.contains(x) {
        let i = choose|i: int| 0 <= i < a.len() && a[i] == x;
        assert((a + b)[i] == x);
    }
    if b.contains(x) {
        let i = choose|i: int| 0 <= i < b.len() && b[i] == x;
        assert((a + b)[a.len() + i] == x);
    }
    if (a + b).contains(x) {
        let i = choose|i: int| 0 <= i < (a + b).len() && (a + b)[i] == x;
        if i < a.len() {
            assert(a[i] == x);
        } else {
            assert(b[i - a.len()] == x);
        }
    }
}

// ---------------------------------------------------------------------------
// Sequences
// ---------------------------------------------------------------------------

proof fn lemma_windows_at(n: nat, block_id: usize, min_len: nat, start: nat, w: WindowOccurrence)
    requires
        start + min_len <= n <= usize::MAX,
    ensures
        windows_at(n, block_id, min_len, start).contains(w) <==> w.block_id == block_id
            && w.range.start == start && start + min_len <= w.range.end <= n,
{
    let ws = windows_at(n, block_id, min_len, start);
    if w.block_id == block_id && w.range.start == start && start + min_len <= w.range.end <= n {
        assert(ws[w.range.end - start - min_len] == w);
    }
    if ws.contains(w) {
        let k = choose|k: int| 0 <= k < ws.len() && ws[k] == w;
    }
}

proof fn lemma_windows_before(
    n: nat,
    block_id: usize,
    min_len: nat,
    starts: nat,
    w: WindowOccurrence,
)
    requires
        n <= usize::MAX,
        starts + min_len <= n + 1,
    ensures
        windows_before(n, block_id, min_len, starts).contains(w) <==> w.block_id == block_id
            && w.range.start < starts && w.range.start + min_len <= w.range.end <= n,
    decreases starts,
{
    if starts > 0 {
        let last = (starts - 1) as nat;
        lemma_windows_before(n, block_id, min_len, last, w);
        lemma_windows_at(n, block_id, min_len, last, w);
        lemma_either(
            windows_before(n, block_id, min_len, last),
            windows_at(n, block_id, min_len, last),
            w,
        );
    } else {
        assert(!windows_before(n, block_id, min_len, starts).contains(w));
    }
}

/// The sequences that are looked at are those of the smallest length or more,
/// anywhere in the first `n` blocks.
pub proof fn law_windows(blocks: Seq<IRBlockView>, min_len: nat, n: int, w: WindowOccurrence)
    requires
        0 <= n <= blocks.len() <= usize::MAX,
        forall|b: int| 0 <= b < n ==> (#[trigger] blocks[b]).stmts.len() <= usize::MAX,
    ensures
        all_windows(blocks, min_len, n).contains(w) <==> w.block_id < n && w.range.start + min_len
            <= w.range.end <= blocks[w.block_id as int].stmts.len(),
    decreases n,
{
    if n > 0 {
        law_windows(blocks, min_len, n - 1, w);
        let len = blocks[n - 1].stmts.len();
        if len >= min_len {
            lemma_windows_before(len, (n - 1) as usize, min_len, (len - min_len + 1) as nat, w);
        } else {
            assert(!block_windows(len, (n - 1) as usize, min_len).contains(w));
        }
        lemma_either(
            all_windows(blocks, min_len, n - 1),
            block_windows(len, (n - 1) as usize, min_len),
            w,
        );
    } else {
        assert(!all_windows(blocks, min_len, n).contains(w));
    }
}

proof fn lemma_found(blocks: Seq<IRBlockView>, groups: Seq<Seq<WindowOccurrence>>, key: Seq<StmtView>)
    ensures
        0 <= find_group(blocks, groups, key) <= groups.len(),
        find_group(blocks, groups, key) < groups.len() ==> window_key(
            blocks,
            groups[find_group(blocks, groups, key)][0],
        ) == key,
        forall|g: int|
            0 <= g < find_group(blocks, groups, key) ==> window_key(blocks, (#[trigger] groups[g])[0])
                != key,
    decreases groups.len(),
{
    if groups.len() > 0 && window_key(blocks, groups[0][0]) != key {
        let rest = groups.drop_first();
        lemma_found(blocks, rest, key);
        assert forall|g: int| 0 <= g < find_group(blocks, groups, key) implies window_key(
            blocks,
            (#[trigger] groups[g])[0],
        ) != key by {
            if g > 0 {
                assert(rest[g - 1] == groups[g]);
            }
        }
    }
}

/// Whether sequences are together exactly if they are the same but for
/// constants.
pub open spec fn sorted_out(blocks: Seq<IRBlockView>, groups: Seq<Seq<WindowOccurrence>>) -> bool {
    &&& forall|g: int| 0 <= g < groups.len() ==> (#[trigger] groups[g]).len() > 0
    &&& forall|g: int, h: int, i: int, j: int|
        #![trigger groups[g][i], groups[h][j]]
        0 <= g < groups.len() && 0 <= h < groups.len() && 0 <= i < groups[g].len() && 0 <= j
            < groups[h].len() ==> (g == h <==> window_key(blocks, groups[g][i]) == window_key(
            blocks,
            groups[h][j],
        ))
}

/// Two sequences are in one group exactly if they are the same but for
/// constants, and every sequence that was looked at is in a group.
pub proof fn law_grouped(blocks: Seq<IRBlockView>, ws: Seq<WindowOccurrence>)
    ensures
        sorted_out(blocks, grouped(blocks, ws)),
        forall|w: WindowOccurrence|
            #![trigger ws.contains(w)]
            ws.contains(w) <==> exists|g: int|
                0 <= g < grouped(blocks, ws).len() && (#[trigger] grouped(blocks, ws)[g]).contains(w),
    decreases ws.len(),
{
    let groups = grouped(blocks, ws);
    if ws.len() == 0 {
        assert forall|w: WindowOccurrence| !ws.contains(w) by {}
    } else {
        let before = ws.drop_last();
        let last = ws.last();
        law_grouped(blocks, before);
        let old_groups = grouped(blocks, before);
        let key = window_key(blocks, last);
        lemma_found(blocks, old_groups, key);
        let f = find_group(blocks, old_groups, key);
        assert forall|g: int| 0 <= g < groups.len() implies (#[trigger] groups[g]).len() > 0 by {
            if g < old_groups.len() && g != f {
                assert(groups[g] == old_groups[g]);
            }
        }
        assert forall|g: int, i: int|
            0 <= g < groups.len() && 0 <= i < groups[g].len() implies window_key(
            blocks,
            #[trigger] groups[g][i],
        ) == (if g < old_groups.len() {
            window_key(blocks, old_groups[g][0])
        } else {
            key
        }) by {
            if g < old_groups.len() {
                assert(old_groups[g].len() > 0);
                if g == f && i == old_groups[g].len() {
                    assert(groups[g][i] == last);
                } else {
                    assert(groups[g][i] == old_groups[g][i]);
                    assert(window_key(blocks, old_groups[g][i]) == window_key(
                        blocks,
                        old_groups[g][0],
                    ));
                }
            }
        }
        assert forall|g: int, h: int, i: int, j: int|
            #![trigger groups[g][i], groups[h][j]]
            0 <= g < groups.len() && 0 <= h < groups.len() && 0 <= i < groups[g].len() && 0 <= j
                < groups[h].len() implies (g == h <==> window_key(blocks, groups[g][i])
            == window_key(blocks, groups[h][j])) by {
            if g < old_groups.len() && h < old_groups.len() {
                assert(old_groups[g].len() > 0 && old_groups[h].len() > 0);
                assert(g == h <==> window_key(blocks, old_groups[g][0]) == window_key(
                    blocks,
                    old_groups[h][0],
                ));
            } else if g < old_groups.len() {
                assert(f == old_groups.len());
                assert(window_key(blocks, old_groups[g][0]) != key);
            } else if h < old_groups.len() {
                assert(f == old_groups.len());
                assert(window_key(blocks, old_groups[h][0]) != key);
            }
        }
        assert forall|w: WindowOccurrence|
            #![trigger ws.contains(w)]
            ws.contains(w) <==> exists|g: int|
                0 <= g < groups.len() && (#[trigger] groups[g]).contains(w) by {
            assert(ws =~= before + seq![last]);
            lemma_either(before, seq![last], w);
            assert(seq![last].contains(w) <==> w == last) by {
                assert(seq![last][0] == last);
            }
            if before.contains(w) {
                let g = choose|g: int|
                    0 <= g < old_groups.len() && (#[trigger] old_groups[g]).contains(w);
                let i = choose|i: int| 0 <= i < old_groups[g].len() && old_groups[g][i] == w;
                assert(groups[g][i] == w);
                assert(groups[g].contains(w));
            }
            if w == last {
                if f < old_groups.len() {
                    assert(groups[f][old_groups[f].len() as int] == last);
                    assert(groups[f].contains(w));
                } else {
                    assert(groups[f][0] == last);
                    assert(groups[f].contains(w));
                }
            }
            if exists|g: int| 0 <= g < groups.len() && (#[trigger] groups[g]).contains(w) {
                let g = choose|g: int| 0 <= g < groups.len() && (#[trigger] groups[g]).contains(w);
                let i = choose|i: int| 0 <= i < groups[g].len() && groups[g][i] == w;
                if g < old_groups.len() && !(g == f && i == old_groups[g].len()) {
                    assert(old_groups[g][i] == w);
                    assert(old_groups[g].contains(w));
                    assert(before.contains(w));
                } else {
                    assert(w == last);
                }
            }
        }
    }
}

proof fn lemma_with_candidate_kept(
    s: Seq<Seq<WindowOccurrence>>,
    g: Seq<WindowOccurrence>,
    x: Seq<WindowOccurrence>,
)
    ensures
        with_candidate(s, g).contains(x) <==> s.contains(x) || x == g,
    decreases s.len(),
{
    let all = with_candidate(s, g);
    assert(seq![g].contains(x) <==> x == g) by {
        assert(seq![g][0] == g);
    }
    if s.len() > 0 {
        assert(s =~= seq![s[0]] + s.drop_first());
        lemma_either(seq![s[0]], s.drop_first(), x);
        assert(seq![s[0]].contains(x) <==> x == s[0]) by {
            assert(seq![s[0]][0] == s[0]);
        }
        if group_gain(s[0]) < group_gain(g) {
            lemma_either(seq![g], s, x);
        } else {
            lemma_with_candidate_kept(s.drop_first(), g, x);
            lemma_either(seq![s[0]], with_candidate(s.drop_first(), g), x);
        }
    }
}

/// Whether groups come in order of what they save, the most first.
pub open spec fn gains_fall(s: Seq<Seq<WindowOccurrence>>) -> bool {
    forall|i: int, j: int|
        0 <= i < j < s.len() ==> group_gain(#[trigger] s[i]) >= group_gain(#[trigger] s[j])
}

proof fn lemma_with_candidate_falls(s: Seq<Seq<WindowOccurrence>>, g: Seq<WindowOccurrence>)
    requires
        gains_fall(s),
    ensures
        gains_fall(with_candidate(s, g)),
    decreases s.len(),
{
    let all = with_candidate(s, g);
    if s.len() > 0 {
        if group_gain(s[0]) < group_gain(g) {
            assert forall|i: int, j: int| 0 <= i < j < all.len() implies group_gain(
                #[trigger] all[i],
            ) >= group_gain(#[trigger] all[j]) by {
                assert(all[j] == s[j - 1]);
                if i > 0 {
                    assert(all[i] == s[i - 1]);
                } else if j > 1 {
                    assert(group_gain(s[0]) >= group_gain(s[j - 1]));
                }
            }
        } else {
            let rest = s.drop_first();
            assert forall|i: int, j: int| 0 <= i < j < rest.len() implies group_gain(
                #[trigger] rest[i],
            ) >= group_gain(#[trigger] rest[j]) by {
                assert(rest[i] == s[i + 1] && rest[j] == s[j + 1]);
            }
            lemma_with_candidate_falls(rest, g);
            let more = with_candidate(rest, g);
            assert forall|i: int, j: int| 0 <= i < j < all.len() implies group_gain(
                #[trigger] all[i],
            ) >= group_gain(#[trigger] all[j]) by {
                assert(all[j] == more[j - 1]);
                if i > 0 {
                    assert(all[i] == more[i - 1]);
                } else {
                    let x = more[j - 1];
                    lemma_with_candidate_kept(rest, g, x);
                    assert(more.contains(x));
                    if rest.contains(x) {
                        let k = choose|k: int| 0 <= k < rest.len() && rest[k] == x;
                        assert(s[k + 1] == x);
                    }
                }
            }
        }
    }
}

/// A group is considered exactly if it has as many sequences as is asked and
/// their statements are more than a call costs; the ones that save most come
/// first.
pub proof fn law_considered(
    cfg: AdaptiveSplitConfig,
    groups: Seq<Seq<WindowOccurrence>>,
    g: Seq<WindowOccurrence>,
)
    ensures
        candidates(cfg, groups).contains(g) <==> groups.contains(g) && g.len() >= cfg.min_reuse_count
            && g.len() * (if g[0].range.start < g[0].range.end {
            g[0].range.end - g[0].range.start
        } else {
            0
        }) > cfg.sub_interp_entry_cost,
        gains_fall(candidates(cfg, groups)),
    decreases groups.len(),
{
    if groups.len() > 0 {
        let before = groups.drop_last();
        let last = groups.last();
        law_considered(cfg, before, g);
        assert(groups =~= before + seq![last]);
        lemma_either(before, seq![last], g);
        assert(seq![last].contains(g) <==> g == last) by {
            assert(seq![last][0] == last);
        }
        if is_candidate(cfg, last) {
            lemma_with_candidate_kept(candidates(cfg, before), last, g);
            lemma_with_candidate_falls(candidates(cfg, before), last);
        }
    } else {
        assert(!groups.contains(g));
        assert(!candidates(cfg, groups).contains(g));
    }
}

// ---------------------------------------------------------------------------
// Shared sequences
// ---------------------------------------------------------------------------

/// Whether a statement is in two ranges.
pub open spec fn in_both(a: StmtRange, b: StmtRange, i: int) -> bool {
    a.start <= i < a.end && b.start <= i < b.end
}

/// Ranges overlap exactly if they have a statement in common.
pub proof fn law_overlap(ranges: Seq<StmtRange>, r: StmtRange)
    requires
        r.start < r.end,
        forall|k: int| 0 <= k < ranges.len() ==> (#[trigger] ranges[k]).start < ranges[k].end,
    ensures
        range_overlaps(ranges, r) <==> exists|k: int, i: int|
            0 <= k < ranges.len() && #[trigger] in_both(ranges[k], r, i),
{
    if range_overlaps(ranges, r) {
        let k = choose|k: int|
            0 <= k < ranges.len() && (#[trigger] ranges[k]).start < r.end && r.start < ranges[k].end;
        let i: int = if ranges[k].start < r.start {
            r.start as int
        } else {
            ranges[k].start as int
        };
        assert(in_both(ranges[k], r, i));
    }
    if exists|k: int, i: int| 0 <= k < ranges.len() && #[trigger] in_both(ranges[k], r, i) {
        let (k, i) = choose|k: int, i: int|
            0 <= k < ranges.len() && #[trigger] in_both(ranges[k], r, i);
        assert(ranges[k].start < r.end && r.start < ranges[k].end);
    }
}

/// Whether a sequence of a block is one of a list of sequences.
pub open spec fn among(ws: Seq<WindowOccurrence>, m: (usize, StmtRange)) -> bool {
    ws.contains(WindowOccurrence { block_id: m.0, range: m.1 })
}

/// The sequences of a group that are taken are those whose statements belong to
/// no region yet.
pub proof fn law_free_sequences(
    used: Seq<Seq<StmtRange>>,
    ws: Seq<WindowOccurrence>,
    m: (usize, StmtRange),
)
    ensures
        free_windows(used, ws).contains(m) <==> among(ws, m) && !range_overlaps(
            used[m.0 as int],
            m.1,
        ),
    decreases ws.len(),
{
    let w = WindowOccurrence { block_id: m.0, range: m.1 };
    if ws.len() > 0 {
        let before = ws.drop_last();
        let last = ws.last();
        law_free_sequences(used, before, m);
        assert(ws =~= before + seq![last]);
        lemma_either(before, seq![last], w);
        assert(seq![last].contains(w) <==> w == last) by {
            assert(seq![last][0] == last);
        }
        let rest = free_windows(used, before);
        let x = (last.block_id, last.range);
        assert(rest.push(x) =~= rest + seq![x]);
        lemma_either(rest, seq![x], m);
        assert(seq![x].contains(m) <==> m == x) by {
            assert(seq![x][0] == x);
        }
    } else {
        assert(!ws.contains(w));
        assert(!free_windows(used, ws).contains(m));
    }
}

proof fn lemma_calls_only(s: SplitView, members: Seq<(usize, StmtRange)>, core: usize, n: int)
    ensures
        with_core_calls(s, members, core, n).cores == s.cores,
        with_core_calls(s, members, core, n).loops == s.loops,
    decreases n,
{
    if n > 0 {
        lemma_calls_only(s, members, core, n - 1);
    }
}

/// A group becomes a region exactly if there is room for one more and enough of
/// its sequences are free.
pub proof fn law_region_taken(cfg: AdaptiveSplitConfig, s: SplitView, g: Seq<WindowOccurrence>)
    ensures
        s.cores.len() < cfg.max_appended_regions && free_windows(s.used, g).len()
            >= cfg.min_reuse_count ==> take_group(cfg, s, g).cores == s.cores.push(
            free_windows(s.used, g),
        ),
        !(s.cores.len() < cfg.max_appended_regions && free_windows(s.used, g).len()
            >= cfg.min_reuse_count) ==> take_group(cfg, s, g) == s,
        take_group(cfg, s, g).loops == s.loops,
{
    let members = free_windows(s.used, g);
    let with = s.with_region(
        RegionKindView::SharedCore { members: crate::virt::split::core_members(members) },
        crate::virt::split::window_len(g[0]),
    );
    lemma_calls_only(
        SplitView { cores: s.cores.push(members), ..with },
        members,
        s.cores.len() as usize,
        members.len() as int,
    );
}

/// The statements of a sequence but for their constants.
pub open spec fn sequence_shape(blocks: Seq<IRBlockView>, m: (usize, StmtRange)) -> Seq<StmtView> {
    canon_stmts(blocks[m.0 as int].stmts.subrange(m.1.start as int, m.1.end as int))
}

/// Whether a shared sequence is what the configuration asks for: enough
/// occurrences, long enough, and all of them alike but for constants.
pub open spec fn well_shared(
    cfg: AdaptiveSplitConfig,
    blocks: Seq<IRBlockView>,
    members: Seq<(usize, StmtRange)>,
) -> bool {
    &&& members.len() >= cfg.min_reuse_count
    &&& forall|i: int|
        0 <= i < members.len() ==> {
            &&& (#[trigger] members[i]).0 < blocks.len()
            &&& members[i].1.start + cfg.min_sequence_len <= members[i].1.end
            &&& members[i].1.end <= blocks[members[i].0 as int].stmts.len()
        }
    &&& forall|i: int, j: int|
        0 <= i < members.len() && 0 <= j < members.len() ==> sequence_shape(
            blocks,
            #[trigger] members[i],
        ) == sequence_shape(blocks, #[trigger] members[j])
}

proof fn lemma_members(
    cfg: AdaptiveSplitConfig,
    blocks: Seq<IRBlockView>,
    used: Seq<Seq<StmtRange>>,
    groups: Seq<Seq<WindowOccurrence>>,
    g: int,
)
    requires
        sorted_out(blocks, groups),
        0 <= g < groups.len(),
        forall|i: int|
            0 <= i < groups[g].len() ==> {
                let w = #[trigger] groups[g][i];
                &&& w.block_id < blocks.len()
                &&& w.range.start + cfg.min_sequence_len <= w.range.end
                &&& w.range.end <= blocks[w.block_id as int].stmts.len()
            },
        free_windows(used, groups[g]).len() >= cfg.min_reuse_count,
    ensures
        well_shared(cfg, blocks, free_windows(used, groups[g])),
{
    let members = free_windows(used, groups[g]);
    assert forall|i: int| 0 <= i < members.len() implies among(groups[g], #[trigger] members[i]) by {
        law_free_sequences(used, groups[g], members[i]);
        assert(members.contains(members[i]));
    }
    assert forall|i: int| 0 <= i < members.len() implies {
        &&& (#[trigger] members[i]).0 < blocks.len()
        &&& members[i].1.start + cfg.min_sequence_len <= members[i].1.end
        &&& members[i].1.end <= blocks[members[i].0 as int].stmts.len()
    } by {
        let w = WindowOccurrence { block_id: members[i].0, range: members[i].1 };
        assert(among(groups[g], members[i]));
        let k = choose|k: int| 0 <= k < groups[g].len() && groups[g][k] == w;
        assert(groups[g][k] == w);
    }
    assert forall|i: int, j: int|
        0 <= i < members.len() && 0 <= j < members.len() implies sequence_shape(
        blocks,
        #[trigger] members[i],
    ) == sequence_shape(blocks, #[trigger] members[j]) by {
        assert(among(groups[g], members[i]) && among(groups[g], members[j]));
        let v = WindowOccurrence { block_id: members[i].0, range: members[i].1 };
        let w = WindowOccurrence { block_id: members[j].0, range: members[j].1 };
        let k = choose|k: int| 0 <= k < groups[g].len() && groups[g][k] == v;
        let n = choose|n: int| 0 <= n < groups[g].len() && groups[g][n] == w;
        assert(window_key(blocks, groups[g][k]) == window_key(blocks, groups[g][n]));
    }
}

proof fn lemma_all_shared(
    cfg: AdaptiveSplitConfig,
    blocks: Seq<IRBlockView>,
    s: SplitView,
    groups: Seq<Seq<WindowOccurrence>>,
    gs: Seq<Seq<WindowOccurrence>>,
)
    requires
        sorted_out(blocks, groups),
        s.cores.len() == 0,
        s.loops.len() == 0,
        forall|k: int| 0 <= k < gs.len() ==> groups.contains(#[trigger] gs[k]),
        forall|g: int, i: int|
            0 <= g < groups.len() && 0 <= i < groups[g].len() ==> {
                let w = #[trigger] groups[g][i];
                &&& w.block_id < blocks.len()
                &&& w.range.start + cfg.min_sequence_len <= w.range.end
                &&& w.range.end <= blocks[w.block_id as int].stmts.len()
            },
    ensures
        take_groups(cfg, s, gs).loops.len() == 0,
        take_groups(cfg, s, gs).cores.len() <= cfg.max_appended_regions,
        forall|c: int|
            0 <= c < take_groups(cfg, s, gs).cores.len() ==> well_shared(
                cfg,
                blocks,
                #[trigger] take_groups(cfg, s, gs).cores[c],
            ),
    decreases gs.len(),
{
    if gs.len() > 0 {
        let before = gs.drop_last();
        assert forall|k: int| 0 <= k < before.len() implies groups.contains(#[trigger] before[k]) by {
            assert(before[k] == gs[k]);
        }
        lemma_all_shared(cfg, blocks, s, groups, before);
        let t = take_groups(cfg, s, before);
        let last = gs.last();
        assert(groups.contains(gs[gs.len() - 1]));
        let g = choose|g: int| 0 <= g < groups.len() && groups[g] == last;
        law_region_taken(cfg, t, last);
        if t.cores.len() < cfg.max_appended_regions && free_windows(t.used, last).len()
            >= cfg.min_reuse_count {
            lemma_members(cfg, blocks, t.used, groups, g);
            let u = take_group(cfg, t, last);
            assert forall|c: int| 0 <= c < u.cores.len() implies well_shared(
                cfg,
                blocks,
                #[trigger] u.cores[c],
            ) by {
                if c < t.cores.len() {
                    assert(u.cores[c] == t.cores[c]);
                }
            }
        }
    }
}

// ---------------------------------------------------------------------------
// Repetitions
// ---------------------------------------------------------------------------

/// Whether statements are one sequence over and over, but for constants.
pub open spec fn repeated_to(stmts: Seq<StmtView>, len: int) -> bool {
    forall|i: int| 0 <= i < stmts.len() ==> canon_stmt(#[trigger] stmts[i]) == canon_stmt(stmts[i % len])
}

proof fn lemma_repeated_to(stmts: Seq<StmtView>, len: nat, i: int)
    requires
        repeats(stmts, len),
        0 <= i < stmts.len(),
    ensures
        0 <= i % (len as int) < len,
        i % (len as int) < stmts.len(),
        canon_stmt(stmts[i]) == canon_stmt(stmts[i % (len as int)]),
    decreases i,
{
    let n = len as int;
    assert(0 <= i % n < n);
    if i < n {
        assert(i % n == i) by (nonlinear_arith)
            requires
                0 <= i < n,
        ;
    } else {
        lemma_repeated_to(stmts, len, i - n);
        assert((i - n) % n == i % n) by (nonlinear_arith)
            requires
                n > 0,
        ;
        assert(recurs(stmts, len, i - n));
    }
}

/// What is rolled up is the longest body that is long enough, repeats often
/// enough, and makes up the whole block.
pub proof fn law_longest_body(cfg: AdaptiveSplitConfig, stmts: Seq<StmtView>, most: nat, len: nat)
    requires
        0 < len <= most,
        len >= cfg.min_reroll_body_len,
        len * cfg.min_reroll_iterations <= stmts.len(),
        stmts.len() % len == 0,
        repeated_to(stmts, len as int),
    ensures
        reroll_body(cfg, stmts, most) matches Some(n) && n >= len,
    decreases most,
{
    if len == most {
        assert forall|i: int| 0 <= i && i + len < stmts.len() implies #[trigger] recurs(
            stmts,
            len,
            i,
        ) by {
            let n = len as int;
            assert((i + n) % n == i % n) by (nonlinear_arith)
                requires
                    n > 0,
            ;
            assert(canon_stmt(stmts[i]) == canon_stmt(stmts[i % n]));
            assert(canon_stmt(stmts[i + n]) == canon_stmt(stmts[(i + n) % n]));
        }
        assert(repeats(stmts, len));
    } else {
        law_longest_body(cfg, stmts, (most - 1) as nat, len);
    }
}

/// And it is such a body.
pub proof fn law_rolled_body(cfg: AdaptiveSplitConfig, stmts: Seq<StmtView>, most: nat)
    ensures
        reroll_body(cfg, stmts, most) matches Some(n) ==> {
            &&& 0 < n <= most
            &&& n >= cfg.min_reroll_body_len
            &&& n * cfg.min_reroll_iterations <= stmts.len()
            &&& stmts.len() % n == 0
            &&& repeated_to(stmts, n as int)
        },
    decreases most,
{
    if most > 0 {
        if crate::virt::split::body_fits(cfg, stmts, most) {
            assert forall|i: int| 0 <= i < stmts.len() implies canon_stmt(#[trigger] stmts[i])
                == canon_stmt(stmts[i % (most as int)]) by {
                lemma_repeated_to(stmts, most, i);
            }
        } else {
            law_rolled_body(cfg, stmts, (most - 1) as nat);
        }
    }
}

/// Whether a rolled-up loop is what the configuration asks for: a body from the
/// start of its block on, a known number of rounds, enough of them, and more
/// statements than a call costs.
pub open spec fn well_rolled(cfg: AdaptiveSplitConfig, l: RerollLoopSpec) -> bool {
    &&& l.body_range.start == 0
    &&& l.body_range.end > 0
    &&& l.operand_mode == OperandMode::RegisterFile
    &&& match l.trip_count {
        TripCount::Fixed(k) => {
            &&& k >= cfg.min_reroll_iterations
            &&& k * l.body_range.end > cfg.sub_interp_entry_cost
            &&& l.covered_range == (StmtRange { start: 0, end: (l.body_range.end * k) as usize })
        },
        _ => false,
    }
}

proof fn lemma_hints_rolled(
    cfg: AdaptiveSplitConfig,
    s: SplitView,
    blocks: Seq<IRBlockView>,
    hs: Seq<HintedLoop>,
)
    requires
        s.loops.len() == 0,
        forall|b: int| 0 <= b < blocks.len() ==> (#[trigger] blocks[b]).stmts.len() <= u32::MAX,
        forall|i: int| 0 <= i < hs.len() ==> (#[trigger] hs[i]).body < blocks.len(),
    ensures
        take_hints(cfg, s, blocks, hs).cores == s.cores,
        take_hints(cfg, s, blocks, hs).loops.len() <= cfg.max_appended_regions,
        forall|i: int|
            0 <= i < take_hints(cfg, s, blocks, hs).loops.len() ==> well_rolled(
                cfg,
                #[trigger] take_hints(cfg, s, blocks, hs).loops[i],
            ),
    decreases hs.len(),
{
    if hs.len() > 0 {
        let before = hs.drop_last();
        assert forall|i: int| 0 <= i < before.len() implies (#[trigger] before[i]).body
            < blocks.len() by {
            assert(before[i] == hs[i]);
        }
        lemma_hints_rolled(cfg, s, blocks, before);
        let t = take_hints(cfg, s, blocks, before);
        let h = hs.last();
        assert(hs[hs.len() - 1].body < blocks.len());
        let u = take_hint(cfg, t, blocks, h);
        assert forall|i: int| 0 <= i < u.loops.len() implies well_rolled(
            cfg,
            #[trigger] u.loops[i],
        ) by {
            if i < t.loops.len() {
                assert(u.loops[i] == t.loops[i]);
            } else {
                let n = blocks[h.body as int].stmts.len();
                assert(n <= u32::MAX);
                if let TripCount::Fixed(k) = h.trip_count {
                    assert(n as usize * (k as nat) == (n as usize) * k);
                }
            }
        }
    }
}

proof fn lemma_blocks_rolled(
    cfg: AdaptiveSplitConfig,
    s: SplitView,
    blocks: Seq<IRBlockView>,
    n: int,
)
    requires
        0 <= n <= blocks.len() <= u32::MAX,
        s.loops.len() <= cfg.max_appended_regions,
        cfg.min_reroll_iterations > 0,
        forall|b: int| 0 <= b < blocks.len() ==> (#[trigger] blocks[b]).stmts.len() <= u32::MAX,
        forall|i: int| 0 <= i < s.loops.len() ==> well_rolled(cfg, #[trigger] s.loops[i]),
    ensures
        take_blocks(cfg, s, blocks, n).cores == s.cores,
        take_blocks(cfg, s, blocks, n).loops.len() <= cfg.max_appended_regions,
        forall|i: int|
            0 <= i < take_blocks(cfg, s, blocks, n).loops.len() ==> well_rolled(
                cfg,
                #[trigger] take_blocks(cfg, s, blocks, n).loops[i],
            ),
    decreases n,
{
    if n > 0 {
        lemma_blocks_rolled(cfg, s, blocks, n - 1);
        let t = take_blocks(cfg, s, blocks, n - 1);
        let stmts = blocks[n - 1].stmts;
        let u = take_block(cfg, t, blocks, n - 1);
        assert(stmts.len() <= u32::MAX);
        law_rolled_body(cfg, stmts, stmts.len());
        assert forall|i: int| 0 <= i < u.loops.len() implies well_rolled(
            cfg,
            #[trigger] u.loops[i],
        ) by {
            if i < t.loops.len() {
                assert(u.loops[i] == t.loops[i]);
            } else if let Some(len) = reroll_body(cfg, stmts, stmts.len()) {
                let total = stmts.len();
                let rounds = total / len;
                let least = cfg.min_reroll_iterations as nat;
                assert(rounds >= least && rounds * len <= total && rounds <= total) by (nonlinear_arith)
                    requires
                        len > 0,
                        len * least <= total,
                        rounds == total / len,
                ;
                assert(len * rounds == rounds * len) by (nonlinear_arith);
            }
        }
    }
}

proof fn lemma_body_known(blocks: Seq<IRBlockView>, n: int, i: int)
    requires
        0 <= n <= blocks.len(),
        blocks.len() <= usize::MAX,
        0 <= i < crate::virt::cfg_hints::loops_before(blocks, n).len(),
    ensures
        crate::virt::cfg_hints::loops_before(blocks, n)[i].body < n,
    decreases n,
{
    if n > 0 {
        let before = crate::virt::cfg_hints::loops_before(blocks, n - 1);
        if i < before.len() {
            lemma_body_known(blocks, n - 1, i);
        } else {
            lemma_arm_known(
                blocks,
                n - 1,
                crate::virt::regs::arms(blocks[n - 1].terminator),
                i - before.len(),
            );
        }
    }
}

proof fn lemma_arm_known(
    blocks: Seq<IRBlockView>,
    from: int,
    list: Seq<crate::ir::BranchView>,
    i: int,
)
    requires
        0 <= from <= usize::MAX,
        0 <= i < crate::virt::cfg_hints::arms_loops(blocks, from, list).len(),
    ensures
        crate::virt::cfg_hints::arms_loops(blocks, from, list)[i].body == from,
    decreases list.len(),
{
    if list.len() > 0 {
        let before = crate::virt::cfg_hints::arms_loops(blocks, from, list.drop_last());
        if i < before.len() {
            lemma_arm_known(blocks, from, list.drop_last(), i);
        }
    }
}

// ---------------------------------------------------------------------------
// The plan
// ---------------------------------------------------------------------------

/// A plan keeps to its configuration: there are no more shared sequences and no
/// more loops than it allows, each is what it asks for, and there are none where
/// it does not look for them.
pub proof fn law_plan_keeps_to_configuration(blocks: Seq<IRBlockView>, cfg: AdaptiveSplitConfig)
    requires
        blocks.len() <= u32::MAX,
        forall|b: int| 0 <= b < blocks.len() ==> (#[trigger] blocks[b]).stmts.len() <= u32::MAX,
        cfg.loop_reroll ==> cfg.min_reroll_iterations > 0,
    ensures
        split_view(blocks, cfg).cores.len() <= cfg.max_appended_regions,
        split_view(blocks, cfg).loops.len() <= cfg.max_appended_regions,
        !cfg.cross_block ==> split_view(blocks, cfg).cores.len() == 0,
        !cfg.loop_reroll ==> split_view(blocks, cfg).loops.len() == 0,
        forall|c: int|
            0 <= c < split_view(blocks, cfg).cores.len() ==> well_shared(
                cfg,
                blocks,
                #[trigger] split_view(blocks, cfg).cores[c],
            ),
        forall|i: int|
            0 <= i < split_view(blocks, cfg).loops.len() ==> well_rolled(
                cfg,
                #[trigger] split_view(blocks, cfg).loops[i],
            ),
{
    let start = SplitView {
        segments: Seq::new(blocks.len(), |i: int| Seq::empty()),
        cores: Seq::empty(),
        loops: Seq::empty(),
        regions: Seq::empty(),
        rows: blocks.len(),
        used: Seq::new(blocks.len(), |i: int| Seq::empty()),
    };
    let ws = all_windows(blocks, cfg.min_sequence_len as nat, blocks.len() as int);
    let groups = grouped(blocks, ws);
    let gs = candidates(cfg, groups);
    law_grouped(blocks, ws);
    assert forall|k: int| 0 <= k < gs.len() implies groups.contains(#[trigger] gs[k]) by {
        law_considered(cfg, groups, gs[k]);
        assert(gs.contains(gs[k]));
    }
    assert forall|g: int, i: int| 0 <= g < groups.len() && 0 <= i < groups[g].len() implies {
        let w = #[trigger] groups[g][i];
        &&& w.block_id < blocks.len()
        &&& w.range.start + cfg.min_sequence_len <= w.range.end
        &&& w.range.end <= blocks[w.block_id as int].stmts.len()
    } by {
        let w = groups[g][i];
        assert(groups[g].contains(w));
        assert(ws.contains(w));
        law_windows(blocks, cfg.min_sequence_len as nat, blocks.len() as int, w);
    }
    lemma_all_shared(cfg, blocks, start, groups, gs);
    let shared = if cfg.cross_block {
        take_groups(cfg, start, gs)
    } else {
        start
    };
    if cfg.loop_reroll {
        let hs = hinted_loops(blocks);
        assert forall|i: int| 0 <= i < hs.len() implies (#[trigger] hs[i]).body < blocks.len() by {
            lemma_body_known(blocks, blocks.len() as int, i);
        }
        lemma_hints_rolled(cfg, shared, blocks, hs);
        let hinted = if cfg.prefer_reentry_hints {
            take_hints(cfg, shared, blocks, hs)
        } else {
            shared
        };
        lemma_blocks_rolled(cfg, hinted, blocks, blocks.len() as int);
    }
}

proof fn lemma_first_uncovered(s: SplitView, block: int, i: int, n: int)
    requires
        i <= n,
    ensures
        i <= first_uncovered(s, block, i, n) <= n,
        forall|k: int| i <= k < first_uncovered(s, block, i, n) ==> #[trigger] covered(s, block, k),
        first_uncovered(s, block, i, n) < n ==> !covered(s, block, first_uncovered(s, block, i, n)),
    decreases n - i,
{
    if i < n && covered(s, block, i) {
        lemma_first_uncovered(s, block, i + 1, n);
    }
}

proof fn lemma_last_uncovered(s: SplitView, block: int, n: int)
    requires
        0 <= n,
    ensures
        0 <= last_uncovered(s, block, n) <= n,
        forall|k: int| last_uncovered(s, block, n) <= k < n ==> #[trigger] covered(s, block, k),
        last_uncovered(s, block, n) > 0 ==> !covered(s, block, last_uncovered(s, block, n) - 1),
    decreases n,
{
    if n > 0 && covered(s, block, n - 1) {
        lemma_last_uncovered(s, block, n - 1);
    }
}

/// What is in front of and behind the regions of a block: without regions the
/// whole block is in front; otherwise the front runs up to the first statement
/// that no region has, the back from behind the last such statement, and where
/// there is none both are empty.
pub proof fn law_front_and_back(s: SplitView, block: int, n: nat)
    requires
        n <= usize::MAX,
    ensures
        ({
            let (front, back) = block_rest(s, block, n);
            &&& front.start == 0
            &&& back.end == n
            &&& s.segments[block].len() == 0 ==> front.end == n && back.start == n
            &&& s.segments[block].len() > 0 ==> {
                ||| {
                    &&& front.end == 0
                    &&& back.start == n
                    &&& forall|k: int| 0 <= k < n ==> #[trigger] covered(s, block, k)
                }
                ||| {
                    &&& front.end < back.start <= n
                    &&& forall|k: int| 0 <= k < front.end ==> #[trigger] covered(s, block, k)
                    &&& !covered(s, block, front.end as int)
                    &&& forall|k: int| back.start <= k < n ==> #[trigger] covered(s, block, k)
                    &&& !covered(s, block, back.start - 1)
                }
            }
        }),
{
    if s.segments[block].len() > 0 {
        lemma_first_uncovered(s, block, 0, n as int);
        lemma_last_uncovered(s, block, n as int);
        let first = first_uncovered(s, block, 0, n as int);
        let last = last_uncovered(s, block, n as int);
        if first >= last {
            assert forall|k: int| 0 <= k < n implies #[trigger] covered(s, block, k) by {
                if k >= first {
                    assert(last <= k);
                }
            }
        }
    }
}

// ---------------------------------------------------------------------------
// Rows
// ---------------------------------------------------------------------------

/// A statement belongs to the first region of its block that has it.
pub proof fn law_owner(s: SplitView, b: int, i: int, k: int)
    requires
        0 <= k <= s.segments[b].len(),
        forall|j: int|
            0 <= j < k ==> {
                let r = segment_range(s, b, #[trigger] s.segments[b][j]);
                !(r.start <= i < r.end)
            },
        k < s.segments[b].len() ==> {
            let r = segment_range(s, b, s.segments[b][k]);
            r.start <= i < r.end
        },
    ensures
        owner(s, b, i) == (if k < s.segments[b].len() {
            Some(k)
        } else {
            None
        }),
{
    lemma_owner(s, b, i, s.segments[b].len() as int, k);
}

proof fn lemma_owner(s: SplitView, b: int, i: int, n: int, k: int)
    requires
        0 <= k,
        n <= s.segments[b].len(),
        forall|j: int|
            0 <= j < k && j < n ==> {
                let r = segment_range(s, b, #[trigger] s.segments[b][j]);
                !(r.start <= i < r.end)
            },
        k < n ==> {
            let r = segment_range(s, b, s.segments[b][k]);
            r.start <= i < r.end
        },
    ensures
        owner_among(s, b, i, n) == (if k < n {
            Some(k)
        } else {
            None
        }),
    decreases n,
{
    if n > 0 {
        lemma_owner(s, b, i, n - 1, k);
        if k >= n {
            let r = segment_range(s, b, s.segments[b][n - 1]);
            assert(!(r.start <= i < r.end));
        }
    }
}

/// The range of a region in a block: of a shared sequence that of its first
/// occurrence there, of a loop all that it stands for in its own block.
pub proof fn law_segment_range(s: SplitView, block: int, call: SegmentInvoke, k: int)
    ensures
        match call {
            SegmentInvoke::SharedCore { region_index, entry_offset: _ } => {
                let members = s.cores[region_index as int];
                0 <= k < members.len() && members[k].0 == block && (forall|j: int|
                    0 <= j < k ==> (#[trigger] members[j]).0 != block) ==> segment_range(
                    s,
                    block,
                    call,
                ) == members[k].1
            },
            SegmentInvoke::RerollLoop { region_index } => {
                let l = s.loops[region_index as int];
                &&& l.owner_block == block ==> segment_range(s, block, call) == l.covered_range
                &&& l.owner_block != block ==> segment_range(s, block, call).start
                    == segment_range(s, block, call).end
            },
        },
{
    if let SegmentInvoke::SharedCore { region_index, .. } = call {
        let members = s.cores[region_index as int];
        if 0 <= k < members.len() && members[k].0 == block && (forall|j: int|
            0 <= j < k ==> (#[trigger] members[j]).0 != block) {
            lemma_member_range(members, block, k);
        }
    }
}

proof fn lemma_member_range(members: Seq<(usize, StmtRange)>, block: int, k: int)
    requires
        0 <= k < members.len(),
        members[k].0 == block,
        forall|j: int| 0 <= j < k ==> (#[trigger] members[j]).0 != block,
    ensures
        member_range(members, block) == members[k].1,
    decreases k,
{
    if k > 0 {
        let rest = members.drop_first();
        assert(members[0].0 != block);
        assert forall|j: int| 0 <= j < k - 1 implies (#[trigger] rest[j]).0 != block by {
            assert(rest[j] == members[j + 1]);
        }
        lemma_member_range(rest, block, k - 1);
    }
}

proof fn lemma_block_cuts(s: SplitView, blocks: Seq<IRBlockView>, b: int, n: int, r: Row)
    requires
        0 <= b <= usize::MAX,
        n <= usize::MAX,
    ensures
        block_cuts(s, blocks, b, n).contains(r) <==> r.block == b && !r.entry && r.start < n
            && is_cut(s, blocks, b, r.start as int),
    decreases n,
{
    if n > 0 {
        lemma_block_cuts(s, blocks, b, n - 1, r);
        let before = block_cuts(s, blocks, b, n - 1);
        let x = Row { block: b as usize, start: (n - 1) as usize, entry: false };
        assert(before.push(x) =~= before + seq![x]);
        lemma_either(before, seq![x], r);
        assert(seq![x].contains(r) <==> r == x) by {
            assert(seq![x][0] == x);
        }
    } else {
        assert(!block_cuts(s, blocks, b, n).contains(r));
    }
}

proof fn lemma_all_cuts(s: SplitView, blocks: Seq<IRBlockView>, n: int, r: Row)
    requires
        0 <= n <= blocks.len() <= usize::MAX,
        forall|b: int| 0 <= b < n ==> (#[trigger] blocks[b]).stmts.len() <= usize::MAX,
    ensures
        all_cuts(s, blocks, n).contains(r) <==> r.block < n && !r.entry && is_cut(
            s,
            blocks,
            r.block as int,
            r.start as int,
        ),
    decreases n,
{
    if n > 0 {
        lemma_all_cuts(s, blocks, n - 1, r);
        let len = blocks[n - 1].stmts.len() as int;
        lemma_block_cuts(s, blocks, n - 1, len, r);
        lemma_either(all_cuts(s, blocks, n - 1), block_cuts(s, blocks, n - 1, len), r);
    } else {
        assert(!all_cuts(s, blocks, n).contains(r));
    }
}

/// A block is cut where the region of its statements changes, where a round of a
/// loop starts, and where it starts with a region, as far as what is known there
/// can be handed on; and nowhere else.
pub proof fn law_cuts(s: SplitView, blocks: Seq<IRBlockView>, b: usize, c: usize)
    requires
        b < blocks.len() <= usize::MAX,
        forall|k: int| 0 <= k < blocks.len() ==> (#[trigger] blocks[k]).stmts.len() <= usize::MAX,
    ensures
        all_cuts(s, blocks, blocks.len() as int).contains(Row { block: b, start: c, entry: false })
            <==> {
            &&& c < blocks[b as int].stmts.len()
            &&& hands_on(blocks[b as int], c as int)
            &&& c == 0 ==> owner(s, b as int, 0) is Some
            &&& c > 0 ==> owner(s, b as int, c - 1) != owner(s, b as int, c as int) || round_starts(
                s,
                b as int,
                c as int,
            )
        },
{
    lemma_all_cuts(
        s,
        blocks,
        blocks.len() as int,
        Row { block: b, start: c, entry: false },
    );
}

proof fn lemma_rows_of_region(s: SplitView, cuts: Seq<Row>, g: int, n: int, i: int)
    requires
        0 <= n <= cuts.len(),
        0 <= i < rows_of_region(s, cuts, g, n).len(),
    ensures
        region_of(s, rows_of_region(s, cuts, g, n)[i]) == g,
        cuts.contains(rows_of_region(s, cuts, g, n)[i]),
    decreases n,
{
    if n > 0 {
        let before = rows_of_region(s, cuts, g, n - 1);
        if i < before.len() {
            lemma_rows_of_region(s, cuts, g, n - 1, i);
        } else {
            assert(rows_of_region(s, cuts, g, n)[i] == cuts[n - 1]);
        }
    }
}

proof fn lemma_region_rows(s: SplitView, cuts: Seq<Row>, g: int, h: int, i: int)
    requires
        0 <= g < h,
        region_rows(s, cuts, g).len() <= i < region_rows(s, cuts, g + 1).len(),
    ensures
        region_rows(s, cuts, g + 1).len() <= region_rows(s, cuts, h).len(),
        region_of(s, region_rows(s, cuts, h)[i]) == g,
        cuts.contains(region_rows(s, cuts, h)[i]),
    decreases h,
{
    if h > g + 1 {
        lemma_region_rows(s, cuts, g, h - 1, i);
        assert(region_rows(s, cuts, h)[i] == region_rows(s, cuts, h - 1)[i]);
    } else {
        let before = region_rows(s, cuts, g);
        lemma_rows_of_region(s, cuts, g, cuts.len() as int, i - before.len());
        assert(region_rows(s, cuts, h)[i] == rows_of_region(s, cuts, g, cuts.len() as int)[i
            - before.len()]);
    }
}

/// The rows of a table: first one for each block, then those of the regions, and
/// each region has the rows that its bounds say: all of them are cuts that belong
/// to it.
pub proof fn law_region_rows(s: SplitView, blocks: Seq<IRBlockView>, g: int, pc: int)
    requires
        blocks.len() <= u32::MAX,
        0 <= g < s.regions.len(),
        region_start(s, blocks, g + 1) <= u32::MAX,
    ensures
        0 <= pc < blocks.len() ==> split_rows(s, blocks)[pc] == (Row {
            block: pc as usize,
            start: 0,
            entry: true,
        }),
        split_regions(s, blocks).len() == s.regions.len(),
        split_regions(s, blocks)[g].kind == s.regions[g].kind,
        split_regions(s, blocks)[0].pc_start == blocks.len(),
        g + 1 < s.regions.len() ==> split_regions(s, blocks)[g].pc_end == split_regions(s, blocks)[g
            + 1].pc_start,
        split_regions(s, blocks)[g].pc_start <= pc < split_regions(s, blocks)[g].pc_end ==> {
            let r = split_rows(s, blocks)[pc];
            &&& !r.entry
            &&& region_of(s, r) == g
            &&& all_cuts(s, blocks, blocks.len() as int).contains(r)
        },
{
    let cuts = all_cuts(s, blocks, blocks.len() as int);
    lemma_starts_grow(s, cuts, g);
    if split_regions(s, blocks)[g].pc_start <= pc < split_regions(s, blocks)[g].pc_end {
        let i = pc - blocks.len();
        lemma_region_rows(s, cuts, g, s.regions.len() as int + 1, i);
        let r = split_rows(s, blocks)[pc];
        assert(r == region_rows(s, cuts, s.regions.len() as int + 1)[i]);
        lemma_no_entries(s, blocks, blocks.len() as int, r);
    }
}

proof fn lemma_starts_grow(s: SplitView, cuts: Seq<Row>, g: int)
    requires
        0 <= g,
    ensures
        region_rows(s, cuts, g).len() <= region_rows(s, cuts, g + 1).len(),
        region_rows(s, cuts, 0).len() == 0,
{
}

proof fn lemma_no_entries(s: SplitView, blocks: Seq<IRBlockView>, n: int, r: Row)
    requires
        all_cuts(s, blocks, n).contains(r),
    ensures
        !r.entry,
    decreases n,
{
    if n > 0 {
        let len = blocks[n - 1].stmts.len() as int;
        lemma_either(all_cuts(s, blocks, n - 1), block_cuts(s, blocks, n - 1, len), r);
        if all_cuts(s, blocks, n - 1).contains(r) {
            lemma_no_entries(s, blocks, n - 1, r);
        } else {
            lemma_no_block_entries(s, blocks, n - 1, len, r);
        }
    } else {
        let k = choose|k: int| 0 <= k < all_cuts(s, blocks, n).len() && all_cuts(s, blocks, n)[k] == r;
    }
}

proof fn lemma_no_block_entries(s: SplitView, blocks: Seq<IRBlockView>, b: int, n: int, r: Row)
    requires
        block_cuts(s, blocks, b, n).contains(r),
    ensures
        !r.entry,
    decreases n,
{
    let all = block_cuts(s, blocks, b, n);
    let k = choose|k: int| 0 <= k < all.len() && all[k] == r;
    if n > 0 {
        let before = block_cuts(s, blocks, b, n - 1);
        if k < before.len() {
            assert(before[k] == r);
            lemma_no_block_entries(s, blocks, b, n - 1, r);
        }
    }
}

/// What a row is: that of a block, a step of a shared sequence, or a loop.
pub proof fn law_row_kind(s: SplitView, r: Row, k: int)
    ensures
        r.entry ==> row_kind(s, r) == BytecodeRowKind::Outer,
        !r.entry && owner(s, r.block as int, r.start as int) is None ==> row_kind(s, r)
            == BytecodeRowKind::Outer,
        !r.entry && owner(s, r.block as int, r.start as int) == Some(k) ==> match s.segments[r.block
            as int][k] {
            SegmentInvoke::SharedCore { region_index, entry_offset: _ } => row_kind(s, r)
                == BytecodeRowKind::SharedCoreStep && region_of(s, r) == region_index,
            SegmentInvoke::RerollLoop { region_index } => row_kind(s, r)
                == BytecodeRowKind::RerollDescriptor && region_of(s, r) == s.cores.len()
                + region_index,
        },
{
}

// ---------------------------------------------------------------------------
// What is taken
// ---------------------------------------------------------------------------

/// A shared sequence becomes a region with a row for each of its statements, and
/// each occurrence calls it from its block, one after the other.
pub proof fn law_shared_region(
    cfg: AdaptiveSplitConfig,
    s: SplitView,
    g: Seq<WindowOccurrence>,
    i: int,
)
    requires
        s.cores.len() < cfg.max_appended_regions,
        free_windows(s.used, g).len() >= cfg.min_reuse_count,
    ensures
        ({
            let members = free_windows(s.used, g);
            let t = take_group(cfg, s, g);
            let n = if g[0].range.start < g[0].range.end {
                g[0].range.end - g[0].range.start
            } else {
                0
            };
            &&& t.rows == s.rows + n
            &&& t.regions.len() == s.regions.len() + 1
            &&& t.regions.drop_last() == s.regions
            &&& t.regions.last().pc_start == s.rows as u32
            &&& t.regions.last().pc_end == (s.rows + n) as u32
            &&& match t.regions.last().kind {
                RegionKindView::SharedCore { members: m } => {
                    &&& m.len() == members.len()
                    &&& 0 <= i < m.len() ==> m[i] == (
                        members[i].0,
                        members[i].1.start as u32,
                        members[i].1.end as u32,
                    )
                },
                _ => false,
            }
        }),
{
    let members = free_windows(s.used, g);
    let with = s.with_region(
        RegionKindView::SharedCore { members: crate::virt::split::core_members(members) },
        crate::virt::split::window_len(g[0]),
    );
    lemma_calls_keep_regions(
        SplitView { cores: s.cores.push(members), ..with },
        members,
        s.cores.len() as usize,
        members.len() as int,
    );
    assert(with.regions.drop_last() =~= s.regions);
}

proof fn lemma_calls_keep_regions(
    s: SplitView,
    members: Seq<(usize, StmtRange)>,
    core: usize,
    n: int,
)
    ensures
        with_core_calls(s, members, core, n).regions == s.regions,
        with_core_calls(s, members, core, n).rows == s.rows,
        with_core_calls(s, members, core, n).segments.len() == s.segments.len(),
        with_core_calls(s, members, core, n).used.len() == s.used.len(),
    decreases n,
{
    if n > 0 {
        lemma_calls_keep_regions(s, members, core, n - 1);
    }
}

/// Each occurrence adds one call to its block, and its statements to those that
/// belong to a region; other blocks stay as they are.
pub proof fn law_calls_added(
    s: SplitView,
    members: Seq<(usize, StmtRange)>,
    core: usize,
    n: int,
    b: int,
)
    requires
        0 <= n < members.len(),
        s.segments.len() == s.used.len(),
        0 <= b < s.segments.len(),
    ensures
        with_core_calls(s, members, core, 0) == s,
        ({
            let t = with_core_calls(s, members, core, n);
            let u = with_core_calls(s, members, core, n + 1);
            &&& b != members[n].0 ==> u.segments[b] == t.segments[b] && u.used[b] == t.used[b]
            &&& b == members[n].0 ==> u.segments[b] == t.segments[b].push(
                SegmentInvoke::SharedCore { region_index: core, entry_offset: 0 },
            ) && u.used[b] == t.used[b].push(members[n].1)
        }),
{
    lemma_calls_keep_regions(s, members, core, n);
}

/// A loop is a region of one row that its block calls; it stands for its body as
/// often as it runs.
pub proof fn law_loop_region(
    s: SplitView,
    block: usize,
    body_len: usize,
    iterations: nat,
    trip: TripCount,
    b: int,
)
    requires
        s.segments.len() == s.used.len(),
        block < s.segments.len(),
        0 <= b < s.segments.len(),
    ensures
        ({
            let t = with_loop(s, block, body_len, iterations, trip);
            &&& t.rows == s.rows + 1
            &&& t.cores == s.cores
            &&& t.regions == s.regions.push(
                RegionMetaView {
                    pc_start: s.rows as u32,
                    pc_end: (s.rows + 1) as u32,
                    kind: RegionKindView::RerollLoop {
                        owner_block: block,
                        body_handler_idx: 0,
                        trip_count: trip,
                        operand_mode: OperandMode::RegisterFile,
                    },
                },
            )
            &&& t.loops.len() == s.loops.len() + 1
            &&& t.loops.last().owner_block == block
            &&& t.loops.last().body_range == (StmtRange { start: 0, end: body_len })
            &&& t.loops.last().trip_count == trip
            &&& t.loops.last().covered_range == (StmtRange {
                start: 0,
                end: (body_len * iterations) as usize,
            })
            &&& b != block ==> t.segments[b] == s.segments[b] && t.used[b] == s.used[b]
            &&& b == block ==> t.segments[b] == s.segments[b].push(
                SegmentInvoke::RerollLoop { region_index: s.loops.len() as usize },
            ) && t.used[b] == s.used[b].push(StmtRange { start: 0, end: body_len })
        }),
{
}

/// An announced loop is taken exactly if there is room, its body has statements
/// and none of them belongs to a region, and it runs a known number of rounds,
/// enough of them, with more statements than a call costs. The body is the whole
/// block.
pub proof fn law_hint_taken(
    cfg: AdaptiveSplitConfig,
    s: SplitView,
    blocks: Seq<IRBlockView>,
    h: HintedLoop,
)
    ensures
        ({
            let len = blocks[h.body as int].stmts.len();
            let free = s.loops.len() < cfg.max_appended_regions && len > 0 && !range_overlaps(
                s.used[h.body as int],
                StmtRange { start: 0, end: len as usize },
            );
            match h.trip_count {
                TripCount::Fixed(k) => {
                    &&& free && k >= cfg.min_reroll_iterations && k * len > cfg.sub_interp_entry_cost
                        ==> take_hint(cfg, s, blocks, h) == with_loop(
                        s,
                        h.body,
                        len as usize,
                        k as nat,
                        TripCount::Fixed(k),
                    )
                    &&& !(free && k >= cfg.min_reroll_iterations && k * len
                        > cfg.sub_interp_entry_cost) ==> take_hint(cfg, s, blocks, h) == s
                },
                _ => take_hint(cfg, s, blocks, h) == s,
            }
        }),
{
}

/// A repetition is taken exactly if there is room, its body belongs to no region,
/// and it has more statements than a call costs; it runs as often as its body
/// fits into the block.
pub proof fn law_repetition_taken(
    cfg: AdaptiveSplitConfig,
    s: SplitView,
    blocks: Seq<IRBlockView>,
    b: int,
)
    ensures
        ({
            let stmts = blocks[b].stmts;
            match reroll_body(cfg, stmts, stmts.len()) {
                None => take_block(cfg, s, blocks, b) == s,
                Some(len) => {
                    let n = stmts.len() / len;
                    let taken = s.loops.len() < cfg.max_appended_regions && !range_overlaps(
                        s.used[b],
                        StmtRange { start: 0, end: len as usize },
                    ) && n * len > cfg.sub_interp_entry_cost;
                    &&& taken ==> take_block(cfg, s, blocks, b) == with_loop(
                        s,
                        b as usize,
                        len as usize,
                        n,
                        TripCount::Fixed(n as u32),
                    )
                    &&& !taken ==> take_block(cfg, s, blocks, b) == s
                },
            }
        }),
{
}

} // verus!
