//! The conflict-of-interest partitioning engine.
//!
//! Given the assembly board, an ordered list of candidate boards and a set
//! of absent member names, the engine computes the quorum threshold and
//! greedily batches candidates into voting groups whose combined conflicts
//! still leave enough present, non-conflicted voters; candidates whose own
//! conflicts already break quorum are routed to an `impossible` list.
//!
//! The whole computation is pinned by `analyze_model`: a mathematical
//! function of the inputs' views alone, which also makes the engine's
//! determinism part of its contract.

use vstd::multiset::Multiset;
use vstd::prelude::*;

use crate::names::{
    conflict_names, count_in, names_difference, names_union, roster_names, string_eq,
    string_view_set, string_views,
};
use crate::types::{Board, BoardView, board_names};

verus! {

broadcast use vstd::seq_lib::seq_to_set_is_finite;

/// The minimum number of eligible voters for a valid decision:
/// the integer ceiling of `total / 2`.
pub open spec fn quorum_for(total: nat) -> nat {
    ((total + 1) / 2) as nat
}

/// The distinct member names of the assembly board.
pub open spec fn roster_of(fum: BoardView) -> Set<Seq<char>> {
    board_names(fum)
}

/// The roster members not named absent.
pub open spec fn present_of(fum: BoardView, absent: Set<Seq<char>>) -> Set<Seq<char>> {
    roster_of(fum).difference(absent)
}

/// The candidate board's members that also sit in the assembly.
pub open spec fn conflicts_of(b: BoardView, fum: BoardView) -> Set<Seq<char>> {
    board_names(b).intersect(roster_of(fum))
}

/// The candidate board's conflicted members that are present.
pub open spec fn conflicts_present_of(b: BoardView, fum: BoardView, absent: Set<Seq<char>>) -> Set<
    Seq<char>,
> {
    conflicts_of(b, fum).intersect(present_of(fum, absent))
}

/// How many present members could vote on board `b` were it decided alone.
pub open spec fn eligible_alone(b: BoardView, fum: BoardView, absent: Set<Seq<char>>) -> int {
    present_of(fum, absent).len() - conflicts_present_of(b, fum, absent).len()
}

/// A candidate whose name and year match the assembly board's is the
/// assembly itself and is never audited.
pub open spec fn is_assembly_ref(b: BoardView, fum: BoardView) -> bool {
    b.name == fum.name && b.year == fum.year
}

/// Mathematical image of a voting group: the boards placed so far, in
/// placement order, and the union of their conflict sets.
#[verifier::ext_equal]
pub struct GroupModel {
    pub boards: Seq<BoardView>,
    pub conflicted: Set<Seq<char>>,
}

/// How many present members could vote on every board of group `g`.
pub open spec fn group_eligible(g: GroupModel, fum: BoardView, absent: Set<Seq<char>>) -> int {
    present_of(fum, absent).len() - g.conflicted.intersect(present_of(fum, absent)).len()
}

/// Whether group `g` could absorb a board with conflict set `cs` and still
/// meet quorum.
pub open spec fn fits(g: GroupModel, cs: Set<Seq<char>>, present: Set<Seq<char>>, quorum: int) -> bool {
    present.len() - g.conflicted.union(cs).intersect(present).len() >= quorum
}

/// Group `g` after absorbing board `b` with conflict set `cs`.
pub open spec fn extend_group(g: GroupModel, b: BoardView, cs: Set<Seq<char>>) -> GroupModel {
    GroupModel { boards: g.boards.push(b), conflicted: g.conflicted.union(cs) }
}

/// First-fit placement: the group list after placing `b` into the first
/// group that can absorb it, or `None` when no existing group can.
pub open spec fn fit_into(
    gs: Seq<GroupModel>,
    b: BoardView,
    cs: Set<Seq<char>>,
    present: Set<Seq<char>>,
    quorum: int,
) -> Option<Seq<GroupModel>>
    decreases gs.len(),
{
    if gs.len() == 0 {
        None
    } else if fits(gs[0], cs, present, quorum) {
        Some(gs.update(0, extend_group(gs[0], b, cs)))
    } else {
        match fit_into(gs.drop_first(), b, cs, present, quorum) {
            Some(rest) => Some(seq![gs[0]] + rest),
            None => None,
        }
    }
}

/// One step of the partitioner: route board `b` to `impossible`, to the
/// first fitting group, or to a fresh group.
pub open spec fn partition_step(
    gs: Seq<GroupModel>,
    imp: Seq<BoardView>,
    b: BoardView,
    fum: BoardView,
    absent: Set<Seq<char>>,
) -> (Seq<GroupModel>, Seq<BoardView>) {
    let present = present_of(fum, absent);
    let quorum = quorum_for(roster_of(fum).len()) as int;
    let cs = conflicts_of(b, fum);
    if present.len() - cs.intersect(present).len() < quorum {
        (gs, imp.push(b))
    } else {
        match fit_into(gs, b, cs, present, quorum) {
            Some(gs2) => (gs2, imp),
            None => (gs.push(GroupModel { boards: seq![b], conflicted: cs }), imp),
        }
    }
}

/// The partitioner over a whole candidate list, consumed in order.
/// Candidates that name the assembly board itself are skipped.
pub open spec fn partition_boards(
    boards: Seq<BoardView>,
    fum: BoardView,
    absent: Set<Seq<char>>,
) -> (Seq<GroupModel>, Seq<BoardView>)
    decreases boards.len(),
{
    if boards.len() == 0 {
        (Seq::<GroupModel>::empty(), Seq::<BoardView>::empty())
    } else {
        let prev = partition_boards(boards.drop_last(), fum, absent);
        if is_assembly_ref(boards.last(), fum) {
            prev
        } else {
            partition_step(prev.0, prev.1, boards.last(), fum, absent)
        }
    }
}

/// Mathematical image of a whole analysis.
#[verifier::ext_equal]
pub struct ResultModel {
    pub groups: Seq<GroupModel>,
    pub impossible: Seq<BoardView>,
    pub total_seats: nat,
    pub present_count: nat,
    pub quorum_limit: nat,
}

/// The one function the engine implements: every field of the result is
/// determined by the views of the inputs.
pub open spec fn analyze_model(
    fum: BoardView,
    boards: Seq<BoardView>,
    absent: Set<Seq<char>>,
) -> ResultModel {
    let p = partition_boards(boards, fum, absent);
    ResultModel {
        groups: p.0,
        impossible: p.1,
        total_seats: roster_of(fum).len(),
        present_count: present_of(fum, absent).len(),
        quorum_limit: quorum_for(roster_of(fum).len()),
    }
}

/// A batch of boards decided together in one agenda item.
#[derive(Debug, PartialEq, Eq)]
pub struct VotingGroup {
    pub boards: Vec<Board>,
    pub conflicted_members: Vec<String>,
}

/// The views of a list of boards, in order.
pub open spec fn board_views(bs: Seq<Board>) -> Seq<BoardView> {
    bs.map_values(|b: Board| b@)
}

/// The views of a list of voting groups, in order.
pub open spec fn group_views(gs: Seq<VotingGroup>) -> Seq<GroupModel> {
    gs.map_values(|g: VotingGroup| g@)
}

impl View for VotingGroup {
    type V = GroupModel;

    open spec fn view(&self) -> GroupModel {
        GroupModel {
            boards: board_views(self.boards@),
            conflicted: string_view_set(self.conflicted_members@),
        }
    }
}

impl VotingGroup {
    /// The conflicted-member list never repeats a name, so its length is
    /// the cardinality of the group's conflict set.
    pub open spec fn wf(&self) -> bool {
        string_views(self.conflicted_members@).no_duplicates()
    }
}

/// The terminal, read-only output of one analysis.
#[derive(Debug, PartialEq, Eq)]
pub struct AnalysisResult {
    pub groups: Vec<VotingGroup>,
    pub impossible: Vec<Board>,
    pub total_seats: usize,
    pub present_count: usize,
    pub quorum_limit: usize,
}

impl View for AnalysisResult {
    type V = ResultModel;

    open spec fn view(&self) -> ResultModel {
        ResultModel {
            groups: group_views(self.groups@),
            impossible: board_views(self.impossible@),
            total_seats: self.total_seats as nat,
            present_count: self.present_count as nat,
            quorum_limit: self.quorum_limit as nat,
        }
    }
}

pub proof fn lemma_board_views_push(bs: Seq<Board>, b: Board)
    ensures
        board_views(bs.push(b)) =~= board_views(bs).push(b@),
{
}

pub proof fn lemma_group_views_push(gs: Seq<VotingGroup>, g: VotingGroup)
    ensures
        group_views(gs.push(g)) =~= group_views(gs).push(g@),
{
}

proof fn lemma_fit_into_none(
    gs: Seq<GroupModel>,
    b: BoardView,
    cs: Set<Seq<char>>,
    present: Set<Seq<char>>,
    quorum: int,
)
    requires
        forall|k: int| 0 <= k < gs.len() ==> !fits(#[trigger] gs[k], cs, present, quorum),
    ensures
        fit_into(gs, b, cs, present, quorum) is None,
    decreases gs.len(),
{
    if gs.len() > 0 {
        assert(forall|k: int|
            0 <= k < gs.drop_first().len() ==> #[trigger] gs.drop_first()[k] == gs[k + 1]);
        lemma_fit_into_none(gs.drop_first(), b, cs, present, quorum);
    }
}

proof fn lemma_fit_into_at(
    gs: Seq<GroupModel>,
    b: BoardView,
    cs: Set<Seq<char>>,
    present: Set<Seq<char>>,
    quorum: int,
    j: int,
)
    requires
        0 <= j < gs.len(),
        forall|k: int| 0 <= k < j ==> !fits(#[trigger] gs[k], cs, present, quorum),
        fits(gs[j], cs, present, quorum),
    ensures
        fit_into(gs, b, cs, present, quorum) == Some(gs.update(j, extend_group(gs[j], b, cs))),
    decreases j,
{
    if j == 0 {
    } else {
        let rest = gs.drop_first();
        assert(forall|k: int| 0 <= k < rest.len() ==> #[trigger] rest[k] == gs[k + 1]);
        lemma_fit_into_at(rest, b, cs, present, quorum, j - 1);
        assert(seq![gs[0]] + rest.update(j - 1, extend_group(rest[j - 1], b, cs)) =~= gs.update(
            j,
            extend_group(gs[j], b, cs),
        ));
    }
}

/// Every group of the list leaves at least `quorum_for(total)` present,
/// non-conflicted voters.
pub open spec fn groups_meet(gs: Seq<GroupModel>, fum: BoardView, absent: Set<Seq<char>>) -> bool {
    forall|k: int|
        0 <= k < gs.len() ==> group_eligible(#[trigger] gs[k], fum, absent) >= quorum_for(
            roster_of(fum).len(),
        ) as int
}

/// Every board of the list already breaks quorum on its own.
pub open spec fn impossible_justified(
    imp: Seq<BoardView>,
    fum: BoardView,
    absent: Set<Seq<char>>,
) -> bool {
    forall|k: int|
        0 <= k < imp.len() ==> eligible_alone(#[trigger] imp[k], fum, absent) < quorum_for(
            roster_of(fum).len(),
        ) as int
}

/// Law: the quorum limit is the exact integer ceiling of half the seat
/// total — the least count whose double reaches `total`.
pub proof fn lemma_quorum_is_ceiling(total: nat)
    ensures
        2 * quorum_for(total) >= total,
        total > 0 ==> 2 * (quorum_for(total) - 1) < total,
        quorum_for(0) == 0,
{
}

/// Law: the present count is the seat total less the absentees that sit in
/// the roster, and never exceeds the seat total.
pub proof fn lemma_present_count(fum: BoardView, absent: Set<Seq<char>>)
    ensures
        present_of(fum, absent).len() == roster_of(fum).len() - absent.intersect(
            roster_of(fum),
        ).len(),
        present_of(fum, absent).len() <= roster_of(fum).len(),
{
    broadcast use vstd::seq_lib::seq_to_set_is_finite;

    let roster = roster_of(fum);
    let d = roster.difference(absent);
    let i = roster.intersect(absent);
    vstd::set_lib::lemma_len_subset(d, roster);
    vstd::set_lib::lemma_len_subset(i, roster);
    assert(d.disjoint(i));
    assert(d + i =~= roster);
    vstd::set_lib::lemma_set_disjoint_lens(d, i);
    assert(absent.intersect(roster) =~= i);
}

proof fn lemma_fit_into_meets(
    gs: Seq<GroupModel>,
    gs2: Seq<GroupModel>,
    b: BoardView,
    cs: Set<Seq<char>>,
    present: Set<Seq<char>>,
    quorum: int,
    fum: BoardView,
    absent: Set<Seq<char>>,
)
    requires
        present == present_of(fum, absent),
        quorum == quorum_for(roster_of(fum).len()) as int,
        groups_meet(gs, fum, absent),
        fit_into(gs, b, cs, present, quorum) == Some(gs2),
    ensures
        groups_meet(gs2, fum, absent),
    decreases gs.len(),
{
    if gs.len() == 0 {
    } else if fits(gs[0], cs, present, quorum) {
        assert(group_eligible(extend_group(gs[0], b, cs), fum, absent) >= quorum);
        assert forall|k: int|
            0 <= k < gs2.len() implies group_eligible(#[trigger] gs2[k], fum, absent)
            >= quorum by {
            if k != 0 {
                assert(gs2[k] == gs[k]);
            }
        }
    } else {
        let rest = gs.drop_first();
        assert(forall|k: int| 0 <= k < rest.len() ==> #[trigger] rest[k] == gs[k + 1]);
        match fit_into(rest, b, cs, present, quorum) {
            Some(r2) => {
                lemma_fit_into_meets(rest, r2, b, cs, present, quorum, fum, absent);
                assert(gs2 == seq![gs[0]] + r2);
                assert forall|k: int|
                    0 <= k < gs2.len() implies group_eligible(#[trigger] gs2[k], fum, absent)
                    >= quorum by {
                    if k > 0 {
                        assert(gs2[k] == r2[k - 1]);
                    } else {
                        assert(gs2[0] == gs[0]);
                    }
                }
            },
            None => {
                assert(false);
            },
        }
    }
}

/// Law: every group the partitioner returns still meets quorum — the
/// present members outside the group's conflict set number at least the
/// quorum limit.
pub proof fn lemma_groups_meet_quorum(fum: BoardView, boards: Seq<BoardView>, absent: Set<Seq<char>>)
    ensures
        groups_meet(analyze_model(fum, boards, absent).groups, fum, absent),
    decreases boards.len(),
{
    if boards.len() > 0 {
        lemma_groups_meet_quorum(fum, boards.drop_last(), absent);
        let prev = partition_boards(boards.drop_last(), fum, absent);
        let b = boards.last();
        if !is_assembly_ref(b, fum) {
            let present = present_of(fum, absent);
            let quorum = quorum_for(roster_of(fum).len()) as int;
            let cs = conflicts_of(b, fum);
            if present.len() - cs.intersect(present).len() >= quorum {
                match fit_into(prev.0, b, cs, present, quorum) {
                    Some(gs2) => {
                        lemma_fit_into_meets(prev.0, gs2, b, cs, present, quorum, fum, absent);
                    },
                    None => {
                        let newg = GroupModel { boards: seq![b], conflicted: cs };
                        assert(group_eligible(newg, fum, absent) >= quorum);
                        let gs2 = prev.0.push(newg);
                        assert forall|k: int|
                            0 <= k < gs2.len() implies group_eligible(#[trigger] gs2[k], fum, absent)
                            >= quorum by {
                            if k < prev.0.len() {
                                assert(gs2[k] == prev.0[k]);
                            } else {
                                assert(gs2[k] == newg);
                            }
                        }
                    },
                }
            }
        }
    }
}

/// Law: every board the partitioner rejects breaks quorum on its own —
/// even decided in isolation its present conflicts leave too few voters.
pub proof fn lemma_impossible_below_quorum(
    fum: BoardView,
    boards: Seq<BoardView>,
    absent: Set<Seq<char>>,
)
    ensures
        impossible_justified(analyze_model(fum, boards, absent).impossible, fum, absent),
    decreases boards.len(),
{
    if boards.len() > 0 {
        lemma_impossible_below_quorum(fum, boards.drop_last(), absent);
        let prev = partition_boards(boards.drop_last(), fum, absent);
        let b = boards.last();
        if !is_assembly_ref(b, fum) {
            let present = present_of(fum, absent);
            let quorum = quorum_for(roster_of(fum).len()) as int;
            let cs = conflicts_of(b, fum);
            if present.len() - cs.intersect(present).len() < quorum {
                let imp2 = prev.1.push(b);
                assert(eligible_alone(b, fum, absent) < quorum);
                assert forall|k: int|
                    0 <= k < imp2.len() implies eligible_alone(#[trigger] imp2[k], fum, absent)
                    < quorum by {
                    if k < prev.1.len() {
                        assert(imp2[k] == prev.1[k]);
                    } else {
                        assert(imp2[k] == b);
                    }
                }
            }
        }
    }
}

/// The boards of all groups, groups in creation order, each group's boards
/// in placement order.
pub open spec fn placed_boards(gs: Seq<GroupModel>) -> Seq<BoardView>
    decreases gs.len(),
{
    if gs.len() == 0 {
        Seq::<BoardView>::empty()
    } else {
        placed_boards(gs.drop_last()) + gs.last().boards
    }
}

/// The candidates the partitioner audits: the input order with every
/// occurrence of the assembly board itself removed.
pub open spec fn audited_candidates(boards: Seq<BoardView>, fum: BoardView) -> Seq<BoardView>
    decreases boards.len(),
{
    if boards.len() == 0 {
        Seq::<BoardView>::empty()
    } else if is_assembly_ref(boards.last(), fum) {
        audited_candidates(boards.drop_last(), fum)
    } else {
        audited_candidates(boards.drop_last(), fum).push(boards.last())
    }
}

proof fn lemma_placed_update(gs: Seq<GroupModel>, j: int, b: BoardView, cs: Set<Seq<char>>)
    requires
        0 <= j < gs.len(),
    ensures
        placed_boards(gs.update(j, extend_group(gs[j], b, cs))).to_multiset() == placed_boards(
            gs,
        ).to_multiset().insert(b),
    decreases gs.len(),
{
    broadcast use vstd::seq_lib::group_to_multiset_ensures;
    broadcast use vstd::multiset::group_multiset_axioms;

    let gs2 = gs.update(j, extend_group(gs[j], b, cs));
    if j == gs.len() - 1 {
        assert(gs2.drop_last() =~= gs.drop_last());
        assert(gs2.last() == extend_group(gs[j], b, cs));
        let front = placed_boards(gs.drop_last());
        let tail = gs[j].boards;
        assert(placed_boards(gs2) == front + tail.push(b));
        vstd::seq_lib::lemma_multiset_commutative(front, tail.push(b));
        vstd::seq_lib::lemma_multiset_commutative(front, tail);
        assert((front + tail.push(b)).to_multiset() =~= (front + tail).to_multiset().insert(b));
    } else {
        assert(gs2.drop_last() =~= gs.drop_last().update(j, extend_group(gs[j], b, cs)));
        assert(gs2.last() == gs.last());
        lemma_placed_update(gs.drop_last(), j, b, cs);
        let front = placed_boards(gs.drop_last());
        let front2 = placed_boards(gs2.drop_last());
        let tail = gs.last().boards;
        assert(front2.to_multiset() == front.to_multiset().insert(b));
        vstd::seq_lib::lemma_multiset_commutative(front2, tail);
        vstd::seq_lib::lemma_multiset_commutative(front, tail);
        assert(placed_boards(gs2).to_multiset() =~= placed_boards(gs).to_multiset().insert(b));
    }
}

proof fn lemma_placed_prepend(g: GroupModel, rest: Seq<GroupModel>)
    ensures
        placed_boards(seq![g] + rest).to_multiset() == g.boards.to_multiset().add(
            placed_boards(rest).to_multiset(),
        ),
    decreases rest.len(),
{
    broadcast use vstd::seq_lib::group_to_multiset_ensures;
    broadcast use vstd::multiset::group_multiset_axioms;

    if rest.len() == 0 {
        assert(seq![g] + rest =~= seq![g]);
        assert(seq![g].drop_last() =~= Seq::<GroupModel>::empty());
        assert(seq![g].last() == g);
        assert(placed_boards(seq![g]) == placed_boards(Seq::<GroupModel>::empty()) + g.boards);
        assert(placed_boards(seq![g]) =~= g.boards);
        assert(placed_boards(rest).to_multiset() =~= Multiset::<BoardView>::empty());
        assert(g.boards.to_multiset().add(Multiset::<BoardView>::empty()) =~=
            g.boards.to_multiset());
    } else {
        let whole = seq![g] + rest;
        assert(whole.drop_last() =~= seq![g] + rest.drop_last());
        assert(whole.last() == rest.last());
        lemma_placed_prepend(g, rest.drop_last());
        vstd::seq_lib::lemma_multiset_commutative(
            placed_boards(rest.drop_last()),
            rest.last().boards,
        );
        vstd::seq_lib::lemma_multiset_commutative(
            placed_boards(whole.drop_last()),
            rest.last().boards,
        );
        assert(placed_boards(whole).to_multiset() =~= g.boards.to_multiset().add(
            placed_boards(rest).to_multiset(),
        ));
    }
}

proof fn lemma_fit_into_placed(
    gs: Seq<GroupModel>,
    gs2: Seq<GroupModel>,
    b: BoardView,
    cs: Set<Seq<char>>,
    present: Set<Seq<char>>,
    quorum: int,
)
    requires
        fit_into(gs, b, cs, present, quorum) == Some(gs2),
    ensures
        placed_boards(gs2).to_multiset() == placed_boards(gs).to_multiset().insert(b),
    decreases gs.len(),
{
    broadcast use vstd::seq_lib::group_to_multiset_ensures;
    broadcast use vstd::multiset::group_multiset_axioms;

    if gs.len() == 0 {
    } else if fits(gs[0], cs, present, quorum) {
        lemma_placed_update(gs, 0, b, cs);
    } else {
        let rest = gs.drop_first();
        match fit_into(rest, b, cs, present, quorum) {
            Some(r2) => {
                lemma_fit_into_placed(rest, r2, b, cs, present, quorum);
                assert(gs2 == seq![gs[0]] + r2);
                assert(gs =~= seq![gs[0]] + rest);
                lemma_placed_prepend(gs[0], r2);
                lemma_placed_prepend(gs[0], rest);
                assert(placed_boards(gs2).to_multiset() =~= placed_boards(
                    gs,
                ).to_multiset().insert(b));
            },
            None => {
                assert(false);
            },
        }
    }
}

/// Law: every candidate that is not the assembly board itself lands in
/// exactly one place — some group's board list or the impossible list —
/// and nothing else ever appears there.
pub proof fn lemma_partition_complete(
    fum: BoardView,
    boards: Seq<BoardView>,
    absent: Set<Seq<char>>,
)
    ensures
        (placed_boards(analyze_model(fum, boards, absent).groups) + analyze_model(
            fum,
            boards,
            absent,
        ).impossible).to_multiset() == audited_candidates(boards, fum).to_multiset(),
    decreases boards.len(),
{
    broadcast use vstd::seq_lib::group_to_multiset_ensures;
    broadcast use vstd::multiset::group_multiset_axioms;

    if boards.len() == 0 {
        assert(placed_boards(Seq::<GroupModel>::empty()) + Seq::<BoardView>::empty() =~= Seq::<
            BoardView,
        >::empty());
    } else {
        lemma_partition_complete(fum, boards.drop_last(), absent);
        let prev = partition_boards(boards.drop_last(), fum, absent);
        let b = boards.last();
        let cand0 = audited_candidates(boards.drop_last(), fum);
        vstd::seq_lib::lemma_multiset_commutative(placed_boards(prev.0), prev.1);
        if !is_assembly_ref(b, fum) {
            let present = present_of(fum, absent);
            let quorum = quorum_for(roster_of(fum).len()) as int;
            let cs = conflicts_of(b, fum);
            if present.len() - cs.intersect(present).len() < quorum {
                vstd::seq_lib::lemma_multiset_commutative(placed_boards(prev.0), prev.1.push(b));
                assert((placed_boards(prev.0) + prev.1.push(b)).to_multiset() =~= (placed_boards(
                    prev.0,
                ) + prev.1).to_multiset().insert(b));
            } else {
                match fit_into(prev.0, b, cs, present, quorum) {
                    Some(gs2) => {
                        lemma_fit_into_placed(prev.0, gs2, b, cs, present, quorum);
                        vstd::seq_lib::lemma_multiset_commutative(placed_boards(gs2), prev.1);
                        assert((placed_boards(gs2) + prev.1).to_multiset() =~= (placed_boards(
                            prev.0,
                        ) + prev.1).to_multiset().insert(b));
                    },
                    None => {
                        let newg = GroupModel { boards: seq![b], conflicted: cs };
                        let gs2 = prev.0.push(newg);
                        assert(gs2.drop_last() =~= prev.0);
                        assert(placed_boards(gs2) == placed_boards(prev.0) + seq![b]);
                        vstd::seq_lib::lemma_multiset_commutative(placed_boards(prev.0), seq![b]);
                        vstd::seq_lib::lemma_multiset_commutative(
                            placed_boards(prev.0) + seq![b],
                            prev.1,
                        );
                        assert(seq![b].to_multiset() =~= Multiset::<BoardView>::empty().insert(b));
                        assert((placed_boards(gs2) + prev.1).to_multiset() =~= (placed_boards(
                            prev.0,
                        ) + prev.1).to_multiset().insert(b));
                    },
                }
            }
        }
    }
}

/// Law: the analysis is deterministic — the result is a function of the
/// inputs' views alone, so identical inputs yield identical analyses.
pub proof fn lemma_deterministic(
    fum: BoardView,
    boards: Seq<BoardView>,
    absent: Set<Seq<char>>,
    r1: ResultModel,
    r2: ResultModel,
)
    requires
        r1 == analyze_model(fum, boards, absent),
        r2 == analyze_model(fum, boards, absent),
    ensures
        r1 == r2,
{
}

/// Law: marking one more member absent moves feasibility monotonically.
/// Losing a member conflicted on board `b` leaves `b`'s standalone
/// eligibility unchanged; losing any other present member lowers it by
/// exactly one.  Conflict sets themselves never depend on absence.
pub proof fn lemma_absence_monotonic(
    fum: BoardView,
    b: BoardView,
    absent: Set<Seq<char>>,
    x: Seq<char>,
)
    requires
        !absent.contains(x),
        present_of(fum, absent).contains(x),
    ensures
        present_of(fum, absent.insert(x)).len() == present_of(fum, absent).len() - 1,
        conflicts_of(b, fum).contains(x) ==> eligible_alone(b, fum, absent.insert(x))
            == eligible_alone(b, fum, absent),
        !conflicts_of(b, fum).contains(x) ==> eligible_alone(b, fum, absent.insert(x))
            == eligible_alone(b, fum, absent) - 1,
{
    broadcast use vstd::seq_lib::seq_to_set_is_finite;
    broadcast use vstd::set::group_set_axioms;

    let roster = roster_of(fum);
    let p = present_of(fum, absent);
    let p2 = present_of(fum, absent.insert(x));
    vstd::set_lib::lemma_len_subset(p, roster);
    assert(p2 =~= p.remove(x));
    let cs = conflicts_of(b, fum);
    let csp = conflicts_present_of(b, fum, absent);
    let csp2 = conflicts_present_of(b, fum, absent.insert(x));
    vstd::set_lib::lemma_len_subset(csp, p);
    assert(csp2 =~= csp.remove(x));
    if cs.contains(x) {
        assert(csp.contains(x));
    } else {
        assert(csp2 =~= csp);
    }
}

/// Runs the whole analysis: quorum, absence resolution, conflict
/// extraction and greedy first-fit grouping, in candidate order.
///
/// The result's view equals `analyze_model` of the inputs' views, so two
/// calls on equal inputs return equal analyses.  Candidates whose name and
/// year match the assembly board `fum` are never audited.
pub fn analyze_voting_groups(
    fum: &Board,
    all_boards: &Vec<Board>,
    absent_members: &Vec<String>,
) -> (r: AnalysisResult)
    ensures
        r@ == analyze_model(fum@, board_views(all_boards@), string_view_set(absent_members@)),
        r.total_seats as nat == roster_of(fum@).len(),
        r.present_count as nat == present_of(fum@, string_view_set(absent_members@)).len(),
        r.quorum_limit as nat == quorum_for(roster_of(fum@).len()),
        forall|k: int| 0 <= k < r.groups@.len() ==> (#[trigger] r.groups@[k]).wf(),
{
    let ghost aset = string_view_set(absent_members@);
    let ghost bv = board_views(all_boards@);

    let roster = roster_names(fum);
    let total_seats = roster.len();
    proof {
        string_views(roster@).unique_seq_to_set();
    }
    let quorum_limit = total_seats / 2 + total_seats % 2;
    proof {
        assert(quorum_limit as int == quorum_for(total_seats as nat) as int);
    }
    let present = names_difference(&roster, absent_members);
    let present_count = present.len();
    proof {
        string_views(present@).unique_seq_to_set();
        assert(string_view_set(present@) == present_of(fum@, aset));
    }

    let mut groups: Vec<VotingGroup> = Vec::new();
    let mut impossible: Vec<Board> = Vec::new();
    let mut bi: usize = 0;
    proof {
        assert(bv.take(0) =~= Seq::<BoardView>::empty());
        assert(group_views(groups@) =~= Seq::<GroupModel>::empty());
        assert(board_views(impossible@) =~= Seq::<BoardView>::empty());
    }
    while bi < all_boards.len()
        invariant
            0 <= bi <= all_boards@.len(),
            bv == board_views(all_boards@),
            aset == string_view_set(absent_members@),
            string_views(roster@).no_duplicates(),
            string_view_set(roster@) == roster_of(fum@),
            total_seats == roster@.len(),
            total_seats as nat == roster_of(fum@).len(),
            quorum_limit as int == quorum_for(roster_of(fum@).len()) as int,
            string_views(present@).no_duplicates(),
            string_view_set(present@) == present_of(fum@, aset),
            present_count == present@.len(),
            present_count as nat == present_of(fum@, aset).len(),
            group_views(groups@) == partition_boards(bv.take(bi as int), fum@, aset).0,
            board_views(impossible@) == partition_boards(bv.take(bi as int), fum@, aset).1,
            forall|k: int| 0 <= k < groups@.len() ==> (#[trigger] groups@[k]).wf(),
        decreases all_boards@.len() - bi,
    {
        let b = &all_boards[bi];
        let ghost bview = bv[bi as int];
        proof {
            assert(bview == b@);
            assert(bv.take(bi as int + 1).drop_last() =~= bv.take(bi as int));
            assert(bv.take(bi as int + 1).last() == bview);
        }
        let same_name = string_eq(&b.name, &fum.name);
        let same_year = string_eq(&b.year, &fum.year);
        if same_name && same_year {
            proof {
                assert(is_assembly_ref(bview, fum@));
            }
        } else {
            proof {
                assert(!is_assembly_ref(bview, fum@));
            }
            let conflicts = conflict_names(b, &roster);
            let ghost cs = conflicts_of(bview, fum@);
            let ghost presentset = present_of(fum@, aset);
            let cp_count = count_in(&conflicts, &present);
            proof {
                assert(string_view_set(conflicts@) == cs);
                assert(cp_count as int == cs.intersect(presentset).len());
                vstd::set_lib::lemma_len_subset(cs.intersect(presentset), presentset);
            }
            if present_count - cp_count < quorum_limit {
                let ghost imp0 = impossible@;
                impossible.push(b.clone());
                proof {
                    lemma_board_views_push(imp0, impossible@.last());
                    assert(board_views(impossible@) =~= partition_boards(
                        bv.take(bi as int),
                        fum@,
                        aset,
                    ).1.push(bview));
                    assert(partition_boards(bv.take(bi as int + 1), fum@, aset)
                        == partition_step(
                        partition_boards(bv.take(bi as int), fum@, aset).0,
                        partition_boards(bv.take(bi as int), fum@, aset).1,
                        bview,
                        fum@,
                        aset,
                    ));
                }
            } else {
                let ghost gv = group_views(groups@);
                let ghost q = quorum_limit as int;
                let mut j: usize = 0;
                let mut found: bool = false;
                while j < groups.len() && !found
                    invariant
                        0 <= j <= groups@.len(),
                        aset == string_view_set(absent_members@),
                        string_views(present@).no_duplicates(),
                        string_view_set(present@) == presentset,
                        present_count == present@.len(),
                        present_count as nat == presentset.len(),
                        presentset == present_of(fum@, aset),
                        string_view_set(conflicts@) == cs,
                        gv == group_views(groups@),
                        q == quorum_limit as int,
                        forall|k: int| 0 <= k < groups@.len() ==> (#[trigger] groups@[k]).wf(),
                        !found ==> forall|k: int| 0 <= k < j ==> !fits(
                            #[trigger] gv[k],
                            cs,
                            presentset,
                            q,
                        ),
                        found ==> j < groups@.len() && fits(gv[j as int], cs, presentset, q)
                            && forall|k: int| 0 <= k < j ==> !fits(
                            #[trigger] gv[k],
                            cs,
                            presentset,
                            q,
                        ),
                    decreases groups@.len() - j + (if found { 0int } else { 1int }),
                {
                    let u = names_union(&groups[j].conflicted_members, &conflicts);
                    let up_count = count_in(&u, &present);
                    proof {
                        assert(string_view_set(u@) == gv[j as int].conflicted.union(cs));
                        assert(up_count as int == gv[j as int].conflicted.union(cs).intersect(
                            presentset,
                        ).len());
                        vstd::set_lib::lemma_len_subset(
                            gv[j as int].conflicted.union(cs).intersect(presentset),
                            presentset,
                        );
                    }
                    if present_count - up_count >= quorum_limit {
                        found = true;
                        proof {
                            assert(fits(gv[j as int], cs, presentset, q));
                        }
                    } else {
                        proof {
                            assert(!fits(gv[j as int], cs, presentset, q));
                        }
                        j += 1;
                    }
                }
                if found {
                    proof {
                        lemma_fit_into_at(gv, bview, cs, presentset, q, j as int);
                    }
                    let ghost gseq0 = groups@;
                    let mut g = groups.remove(j);
                    let u2 = names_union(&g.conflicted_members, &conflicts);
                    let ghost gboards0 = g.boards@;
                    g.boards.push(b.clone());
                    g.conflicted_members = u2;
                    proof {
                        lemma_board_views_push(gboards0, g.boards@.last());
                        assert(g@ =~~= extend_group(gv[j as int], bview, cs));
                    }
                    groups.insert(j, g);
                    proof {
                        assert(groups@ =~= gseq0.update(j as int, groups@[j as int]));
                        assert(group_views(groups@) =~= gv.update(
                            j as int,
                            extend_group(gv[j as int], bview, cs),
                        ));
                        assert forall|k: int| 0 <= k < groups@.len() implies (
                        #[trigger] groups@[k]).wf() by {
                            if k != j as int {
                                assert(groups@[k] == gseq0[k]);
                            }
                        }
                    }
                } else {
                    proof {
                        lemma_fit_into_none(gv, bview, cs, presentset, q);
                    }
                    let mut nb: Vec<Board> = Vec::new();
                    nb.push(b.clone());
                    let newg = VotingGroup { boards: nb, conflicted_members: conflicts };
                    proof {
                        assert(newg@.boards =~= seq![bview]);
                        assert(newg@ =~~= (GroupModel { boards: seq![bview], conflicted: cs }));
                    }
                    let ghost gseq0 = groups@;
                    groups.push(newg);
                    proof {
                        lemma_group_views_push(gseq0, groups@.last());
                        assert(group_views(groups@) =~= gv.push(
                            GroupModel { boards: seq![bview], conflicted: cs },
                        ));
                    }
                }
                proof {
                    assert(partition_boards(bv.take(bi as int + 1), fum@, aset)
                        == partition_step(
                        partition_boards(bv.take(bi as int), fum@, aset).0,
                        partition_boards(bv.take(bi as int), fum@, aset).1,
                        bview,
                        fum@,
                        aset,
                    ));
                }
            }
        }
        bi += 1;
    }
    let r = AnalysisResult { groups, impossible, total_seats, present_count, quorum_limit };
    proof {
        assert(bv.take(all_boards@.len() as int) =~= bv);
        assert(r@ =~~= analyze_model(fum@, bv, aset));
    }
    r
}

/// How many members may vote on the group's agenda item: the present
/// count less the group's conflicted members that are not absent.  Meant
/// for the presentation layer; inconsistent inputs floor at zero rather
/// than going negative.
pub fn eligible_voters(
    group: &VotingGroup,
    absent_members: &Vec<String>,
    present_count: usize,
) -> (n: usize)
    ensures
        n as int == ({
            let c = group@.conflicted.difference(string_view_set(absent_members@)).len();
            if c <= present_count as int {
                present_count - c
            } else {
                0
            }
        }),
{
    broadcast use vstd::seq_lib::seq_to_set_is_finite;

    let dd = crate::names::dedup_names(&group.conflicted_members);
    let inter = count_in(&dd, absent_members);
    proof {
        string_views(dd@).unique_seq_to_set();
        let cset = string_view_set(dd@);
        let aset = string_view_set(absent_members@);
        let d = cset.difference(aset);
        let i = cset.intersect(aset);
        vstd::set_lib::lemma_len_subset(d, cset);
        vstd::set_lib::lemma_len_subset(i, cset);
        assert(d.disjoint(i));
        assert(d + i =~= cset);
        vstd::set_lib::lemma_set_disjoint_lens(d, i);
    }
    let c = dd.len() - inter;
    if c <= present_count {
        present_count - c
    } else {
        0
    }
}

} // verus!

