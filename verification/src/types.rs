//! The record types the engine works on: assembly and board members.

use vstd::prelude::*;

verus! {

/// Mathematical image of a `Member`: both fields as character sequences.
#[verifier::ext_equal]
pub struct MemberView {
    pub position: Seq<char>,
    pub name: Seq<char>,
}

/// Mathematical image of a `Board`.
#[verifier::ext_equal]
pub struct BoardView {
    pub name: Seq<char>,
    pub year: Seq<char>,
    pub members: Seq<MemberView>,
}

/// One person on a board roster.  Identity for every set operation is the
/// `name` field alone; `position` is descriptive and never drives logic.
#[derive(Debug, PartialEq, Eq)]
pub struct Member {
    pub position: String,
    pub name: String,
}

impl View for Member {
    type V = MemberView;

    open spec fn view(&self) -> MemberView {
        MemberView { position: self.position@, name: self.name@ }
    }
}

impl Clone for Member {
    fn clone(&self) -> (r: Self)
        ensures
            r == *self,
    {
        Member { position: self.position.clone(), name: self.name.clone() }
    }
}

/// One governing body's roster for one fiscal year.  The engine never
/// mutates a `Board` once analysis starts.
#[derive(Debug, PartialEq, Eq)]
pub struct Board {
    pub name: String,
    pub year: String,
    pub members: Vec<Member>,
}

impl View for Board {
    type V = BoardView;

    open spec fn view(&self) -> BoardView {
        BoardView {
            name: self.name@,
            year: self.year@,
            members: self.members@.map_values(|m: Member| m@),
        }
    }
}

impl Clone for Board {
    fn clone(&self) -> (r: Self)
        ensures
            r@ == self@,
    {
        let mut ms: Vec<Member> = Vec::new();
        let mut i: usize = 0;
        while i < self.members.len()
            invariant
                0 <= i <= self.members@.len(),
                ms@ =~= self.members@.take(i as int),
            decreases self.members@.len() - i,
        {
            ms.push(self.members[i].clone());
            i += 1;
        }
        proof {
            assert(ms@ =~= self.members@);
        }
        let r = Board { name: self.name.clone(), year: self.year.clone(), members: ms };
        proof {
            assert(r@ =~~= self@);
        }
        r
    }
}

/// The views of a sequence of members, in order.
pub open spec fn member_views(ms: Seq<Member>) -> Seq<MemberView> {
    ms.map_values(|m: Member| m@)
}

/// The names of a sequence of members, in member order (with repeats).
pub open spec fn member_names(ms: Seq<MemberView>) -> Seq<Seq<char>> {
    ms.map_values(|m: MemberView| m.name)
}

/// The set of distinct member names on a board.
pub open spec fn board_names(b: BoardView) -> Set<Seq<char>> {
    member_names(b.members).to_set()
}

} // verus!
