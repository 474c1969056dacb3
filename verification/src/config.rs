//! Configuration intake: picking the assembly board, resolving requested
//! absences against the roster, the previous fiscal year, and fuzzy
//! correction of member names against the roster.

use vstd::prelude::*;

use crate::names::{push_unique, string_eq, string_view_set, string_views};
use crate::parser::{
    chars_to_string, copy_range, find_char_from, find_char_vec, is_ascii_digit, is_digit_char,
    str_to_chars, trim_chars, trim_of,
};
use crate::types::{Board, Member};
use vstd::string::StringExecFns;

verus! {

/// The character code with an ASCII capital letter folded to lower case.
pub open spec fn ascii_lower(c: char) -> int {
    if 65 <= c as u32 <= 90 {
        c as u32 + 32
    } else {
        c as u32 as int
    }
}

/// ASCII case-insensitive equality of two texts, as
/// `str::eq_ignore_ascii_case` defines it.
pub open spec fn eq_ignore_ascii(a: Seq<char>, b: Seq<char>) -> bool {
    a.len() == b.len() && forall|i: int|
        0 <= i < a.len() ==> ascii_lower(a[i]) == ascii_lower(#[trigger] b[i])
}

fn chars_eq_ignore_case(a: char, b: char) -> (r: bool)
    ensures
        r == (ascii_lower(a) == ascii_lower(b)),
{
    let au = a as u32;
    let bu = b as u32;
    let af = if au >= 65 && au <= 90 {
        au + 32
    } else {
        au
    };
    let bf = if bu >= 65 && bu <= 90 {
        bu + 32
    } else {
        bu
    };
    af == bf
}

/// ASCII case-insensitive string equality.
pub fn eq_ignore_ascii_case(a: &str, b: &str) -> (r: bool)
    ensures
        r == eq_ignore_ascii(a@, b@),
{
    let ac = str_to_chars(a);
    let bc = str_to_chars(b);
    if ac.len() != bc.len() {
        return false;
    }
    let mut i: usize = 0;
    while i < ac.len()
        invariant
            0 <= i <= ac@.len(),
            ac@ == a@,
            bc@ == b@,
            a@.len() == b@.len(),
            forall|k: int| 0 <= k < i ==> ascii_lower(a@[k]) == ascii_lower(#[trigger] b@[k]),
        decreases ac@.len() - i,
    {
        if !chars_eq_ignore_case(ac[i], bc[i]) {
            proof {
                assert(ascii_lower(a@[i as int]) != ascii_lower(b@[i as int]));
            }
            return false;
        }
        i += 1;
    }
    true
}

/// Strict lexicographic order on texts, by character code: the order in
/// which year strings such as `24/25` compare.
pub open spec fn lex_lt(a: Seq<char>, b: Seq<char>) -> bool
    decreases a.len(),
{
    if b.len() == 0 {
        false
    } else if a.len() == 0 {
        true
    } else if a[0] == b[0] {
        lex_lt(a.drop_first(), b.drop_first())
    } else {
        (a[0] as u32) < (b[0] as u32)
    }
}

proof fn lemma_lex_skip(a: Seq<char>, b: Seq<char>, i: int)
    requires
        0 <= i <= a.len(),
        i <= b.len(),
        forall|k: int| 0 <= k < i ==> a[k] == b[k],
    ensures
        lex_lt(a, b) == lex_lt(a.skip(i), b.skip(i)),
    decreases i,
{
    if i > 0 {
        assert(a[0] == b[0]);
        assert(a.len() > 0 && b.len() > 0);
        assert(a.drop_first() =~= a.skip(1));
        assert(b.drop_first() =~= b.skip(1));
        assert(forall|k: int| 0 <= k < i - 1 ==> a.skip(1)[k] == b.skip(1)[k]);
        lemma_lex_skip(a.skip(1), b.skip(1), i - 1);
        assert(a.skip(1).skip(i - 1) =~= a.skip(i));
        assert(b.skip(1).skip(i - 1) =~= b.skip(i));
    } else {
        assert(a.skip(0) =~= a);
        assert(b.skip(0) =~= b);
    }
}

/// Lexicographic comparison of two strings, by character code.
pub fn str_lex_lt(a: &str, b: &str) -> (r: bool)
    ensures
        r == lex_lt(a@, b@),
{
    let ac = str_to_chars(a);
    let bc = str_to_chars(b);
    let mut i: usize = 0;
    while i < ac.len() && i < bc.len()
        invariant
            0 <= i <= ac@.len(),
            i <= bc@.len(),
            ac@ == a@,
            bc@ == b@,
            forall|k: int| 0 <= k < i ==> a@[k] == #[trigger] b@[k],
        decreases ac@.len() - i,
    {
        if ac[i] != bc[i] {
            proof {
                lemma_lex_skip(a@, b@, i as int);
                assert(a@.skip(i as int)[0] == a@[i as int]);
                assert(b@.skip(i as int)[0] == b@[i as int]);
            }
            return (ac[i] as u32) < (bc[i] as u32);
        }
        i += 1;
    }
    proof {
        lemma_lex_skip(a@, b@, i as int);
        if i == a@.len() {
            assert(a@.skip(i as int).len() == 0);
        } else {
            assert(b@.skip(i as int).len() == 0);
        }
    }
    ac.len() < bc.len()
}

/// The least index at or after `k` of a board with the base name and the
/// requested year, or -1.
pub open spec fn first_with_year_from(bs: Seq<Board>, base: Seq<char>, y: Seq<char>, k: int) -> int
    decreases bs.len() - k,
{
    if !(0 <= k < bs.len()) {
        -1
    } else if bs[k]@.name == base && bs[k]@.year == y {
        k
    } else {
        first_with_year_from(bs, base, y, k + 1)
    }
}

/// The index picked by scanning boards `k..` for the base name, replacing
/// the running pick `cur` whenever a year is not lexicographically below
/// the pick's — so the last board with the greatest year wins, as a
/// maximum-by-key scan settles ties.
pub open spec fn latest_base_from(bs: Seq<Board>, base: Seq<char>, k: int, cur: int) -> int
    decreases bs.len() - k,
{
    if !(0 <= k < bs.len()) {
        cur
    } else if bs[k]@.name == base && (!(0 <= cur < bs.len()) || !lex_lt(
        bs[k]@.year,
        bs[cur]@.year,
    )) {
        latest_base_from(bs, base, k + 1, k)
    } else {
        latest_base_from(bs, base, k + 1, cur)
    }
}

/// Picks the assembly board to audit against: with a requested year, the
/// first board carrying the base name and that year; without one, the
/// board with the lexicographically greatest year among those carrying the
/// base name, later boards winning ties.
pub fn find_voting_board<'a>(
    boards: &'a Vec<Board>,
    base_name: &String,
    requested_year: Option<&String>,
) -> (r: Option<&'a Board>)
    ensures
        match requested_year {
            Option::Some(y) => ({
                let i = first_with_year_from(boards@, base_name@, y@, 0);
                match r {
                    Option::Some(b) => i >= 0 && *b == boards@[i],
                    Option::None => i == -1,
                }
            }),
            Option::None => ({
                let i = latest_base_from(boards@, base_name@, 0, -1);
                match r {
                    Option::Some(b) => i >= 0 && *b == boards@[i],
                    Option::None => i == -1,
                }
            }),
        },
{
    if requested_year.is_some() {
        {
            let y = requested_year.unwrap();
            let mut k: usize = 0;
            while k < boards.len()
                invariant
                    0 <= k <= boards@.len(),
                    requested_year == Option::Some(y),
                    first_with_year_from(boards@, base_name@, y@, 0) == first_with_year_from(
                        boards@,
                        base_name@,
                        y@,
                        k as int,
                    ),
                decreases boards@.len() - k,
            {
                let nm = string_eq(&boards[k].name, base_name);
                let yr = string_eq(&boards[k].year, y);
                if nm && yr {
                    proof {
                        assert(boards@[k as int]@.name == base_name@);
                        assert(boards@[k as int]@.year == y@);
                        assert(first_with_year_from(boards@, base_name@, y@, k as int) == k as int);
                        assert(first_with_year_from(boards@, base_name@, y@, 0) == k as int);
                    }
                    return Option::Some(&boards[k]);
                }
                k += 1;
            }
            Option::None
        }
    } else {
        {
            let mut k: usize = 0;
            let mut best: usize = 0;
            let mut found: bool = false;
            while k < boards.len()
                invariant
                    0 <= k <= boards@.len(),
                    requested_year is None,
                    found ==> best < k,
                    latest_base_from(boards@, base_name@, 0, -1) == latest_base_from(
                        boards@,
                        base_name@,
                        k as int,
                        if found {
                            best as int
                        } else {
                            -1
                        },
                    ),
                decreases boards@.len() - k,
            {
                let nm = string_eq(&boards[k].name, base_name);
                if nm && (!found || !str_lex_lt(boards[k].year.as_str(), boards[best].year.as_str())) {
                    best = k;
                    found = true;
                }
                k += 1;
            }
            if found {
                Option::Some(&boards[best])
            } else {
                Option::None
            }
        }
    }
}

/// The least index at or after `k` of a roster name equal to `t` ignoring
/// ASCII case, or -1.
pub open spec fn first_ci_from(names: Seq<Seq<char>>, t: Seq<char>, k: int) -> int
    decreases names.len() - k,
{
    if !(0 <= k < names.len()) {
        -1
    } else if eq_ignore_ascii(names[k], t) {
        k
    } else {
        first_ci_from(names, t, k + 1)
    }
}

/// The resolved and the unknown absentees: for each requested name, in
/// order, the trimmed request is matched against the roster ignoring ASCII
/// case; the first matching roster spelling joins the resolved list (once),
/// and a request matching nothing joins the unknown list, trimmed.
pub open spec fn resolve_absences(valid: Seq<Seq<char>>, reqs: Seq<Seq<char>>) -> (
    Seq<Seq<char>>,
    Seq<Seq<char>>,
)
    decreases reqs.len(),
{
    if reqs.len() == 0 {
        (Seq::<Seq<char>>::empty(), Seq::<Seq<char>>::empty())
    } else {
        let prev = resolve_absences(valid, reqs.drop_last());
        let t = trim_of(reqs.last());
        let k = first_ci_from(valid, t, 0);
        if k >= 0 {
            if prev.0.contains(valid[k]) {
                prev
            } else {
                (prev.0.push(valid[k]), prev.1)
            }
        } else {
            (prev.0, prev.1.push(t))
        }
    }
}

/// Resolves the requested absentees against the roster: returns the
/// matched roster spellings, without repeats, and the trimmed requests
/// that matched no roster name.
pub fn process_absences(valid_fum_names: &Vec<String>, requested_absent: &Vec<String>) -> (r: (
    Vec<String>,
    Vec<String>,
))
    ensures
        string_views(r.0@) == resolve_absences(
            string_views(valid_fum_names@),
            string_views(requested_absent@),
        ).0,
        string_views(r.1@) == resolve_absences(
            string_views(valid_fum_names@),
            string_views(requested_absent@),
        ).1,
{
    let ghost vv = string_views(valid_fum_names@);
    let ghost rv = string_views(requested_absent@);
    let mut resolved: Vec<String> = Vec::new();
    let mut unknown: Vec<String> = Vec::new();
    let mut i: usize = 0;
    proof {
        assert(rv.take(0) =~= Seq::<Seq<char>>::empty());
        assert(string_views(resolved@) =~= Seq::<Seq<char>>::empty());
        assert(string_views(unknown@) =~= Seq::<Seq<char>>::empty());
    }
    while i < requested_absent.len()
        invariant
            0 <= i <= requested_absent@.len(),
            vv == string_views(valid_fum_names@),
            rv == string_views(requested_absent@),
            string_views(resolved@) == resolve_absences(vv, rv.take(i as int)).0,
            string_views(unknown@) == resolve_absences(vv, rv.take(i as int)).1,
        decreases requested_absent@.len() - i,
    {
        let ghost res0 = resolved@;
        let ghost unk0 = unknown@;
        proof {
            assert(rv.take(i as int + 1).drop_last() =~= rv.take(i as int));
            assert(rv.take(i as int + 1).last() == rv[i as int]);
        }
        let trimmed = trim_chars(&requested_absent[i]);
        let mut k: usize = 0;
        let mut hit: bool = false;
        while k < valid_fum_names.len() && !hit
            invariant
                0 <= k <= valid_fum_names@.len(),
                vv == string_views(valid_fum_names@),
                trimmed@ == trim_of(rv[i as int]),
                !hit ==> first_ci_from(vv, trimmed@, 0) == first_ci_from(vv, trimmed@, k as int),
                hit ==> k < valid_fum_names@.len() && first_ci_from(vv, trimmed@, 0) == k as int,
            decreases valid_fum_names@.len() - k + (if hit {
                0int
            } else {
                1int
            }),
        {
            if eq_ignore_ascii_case(valid_fum_names[k].as_str(), trimmed.as_str()) {
                hit = true;
            } else {
                k += 1;
            }
        }
        if hit {
            push_unique(&mut resolved, &valid_fum_names[k]);
            proof {
                let t = trim_of(rv[i as int]);
                assert(first_ci_from(vv, t, 0) == k as int);
                if string_views(res0).contains(vv[k as int]) {
                    assert(string_view_set(res0).contains(vv[k as int]));
                    assert(resolved@ == res0);
                } else {
                    assert(!string_view_set(res0).contains(vv[k as int]));
                    crate::names::lemma_string_views_push(res0, resolved@.last());
                    assert(string_views(resolved@) =~= string_views(res0).push(vv[k as int]));
                }
            }
        } else {
            unknown.push(trimmed);
            proof {
                assert(first_ci_from(vv, trim_of(rv[i as int]), 0) == -1);
                crate::names::lemma_string_views_push(unk0, unknown@.last());
                assert(string_views(unknown@) =~= string_views(unk0).push(trim_of(rv[i as int])));
            }
        }
        i += 1;
    }
    proof {
        assert(rv.take(rv.len() as int) =~= rv);
    }
    (resolved, unknown)
}

/// What `str::to_lowercase` returns: a function of the characters alone.
pub uninterp spec fn lower_of(s: Seq<char>) -> Seq<char>;

/// Relies on `str::to_lowercase`: Unicode lowercasing of the text, a
/// function of the characters alone.
#[verifier::external_body]
fn to_lowercase(s: &String) -> (r: String)
    ensures
        r@ == lower_of(s@),
{
    s.to_lowercase()
}

/// What `strsim::levenshtein` returns: the edit distance between the two
/// texts, a function of them alone.
pub uninterp spec fn edit_distance(a: Seq<char>, b: Seq<char>) -> nat;

/// Relies on `strsim::levenshtein`: the least number of character
/// insertions, deletions and substitutions that turns `a` into `b`.
#[verifier::external_body]
fn levenshtein(a: &str, b: &str) -> (r: usize)
    ensures
        r as nat == edit_distance(a@, b@),
{
    strsim::levenshtein(a, b)
}

/// The score the correction step gives a roster name: the edit distance
/// between the lowercased texts.
pub open spec fn ci_distance(t: Seq<char>, name: Seq<char>) -> int {
    edit_distance(lower_of(t), lower_of(name)) as int
}

/// Whether some roster name equals `t` ignoring ASCII case.
pub open spec fn has_ci_match(names: Seq<Seq<char>>, t: Seq<char>) -> bool {
    exists|k: int| 0 <= k < names.len() && eq_ignore_ascii(#[trigger] names[k], t)
}

/// The index and distance of the best-scoring roster name, scanning names
/// `k..` with running best `(bi, bd)`: a later name wins only with a
/// strictly smaller distance, so the first minimum is kept.
pub open spec fn best_scan(names: Seq<Seq<char>>, t: Seq<char>, k: int, bi: int, bd: int) -> (
    int,
    int,
)
    decreases names.len() - k,
{
    if !(0 <= k < names.len()) {
        (bi, bd)
    } else {
        let d = ci_distance(t, names[k]);
        if d < bd {
            best_scan(names, t, k + 1, k, d)
        } else {
            best_scan(names, t, k + 1, bi, bd)
        }
    }
}

/// The correction step's pick over the whole roster, starting from "no
/// pick yet" and the greatest representable distance.
pub open spec fn best_match(names: Seq<Seq<char>>, t: Seq<char>) -> (int, int) {
    best_scan(names, t, 0, -1, usize::MAX as int)
}

/// What a member's name reads after the correction step: a name already
/// equal to some roster name ignoring ASCII case is left alone; otherwise
/// the roster name scored best replaces it when that score is positive and
/// within the threshold.
pub open spec fn corrected_name(names: Seq<Seq<char>>, t: Seq<char>, threshold: int) -> Seq<char> {
    if has_ci_match(names, t) {
        t
    } else {
        let bm = best_match(names, t);
        if bm.0 >= 0 && 0 < bm.1 <= threshold {
            names[bm.0]
        } else {
            t
        }
    }
}

/// A member after the correction step: same position, corrected name.
pub open spec fn corrected_member(
    m: crate::types::MemberView,
    names: Seq<Seq<char>>,
    threshold: int,
) -> crate::types::MemberView {
    crate::types::MemberView { position: m.position, name: corrected_name(names, m.name, threshold) }
}

/// A board after the correction step: only boards of the target year are
/// touched, member by member.
pub open spec fn corrected_board(
    b: crate::types::BoardView,
    names: Seq<Seq<char>>,
    target: Seq<char>,
    threshold: int,
) -> crate::types::BoardView {
    if b.year == target {
        crate::types::BoardView {
            name: b.name,
            year: b.year,
            members: b.members.map_values(
                |m: crate::types::MemberView| corrected_member(m, names, threshold),
            ),
        }
    } else {
        b
    }
}

fn corrected_for(name: &String, correct_names: &Vec<String>, threshold: usize) -> (r: Option<
    (String, usize),
>)
    ensures
        match r {
            Option::Some(p) => ({
                let bm = best_match(string_views(correct_names@), name@);
                &&& !has_ci_match(string_views(correct_names@), name@)
                &&& bm.0 >= 0
                &&& 0 < bm.1 <= threshold as int
                &&& p.0@ == string_views(correct_names@)[bm.0]
                &&& p.1 as int == bm.1
            }),
            Option::None => corrected_name(string_views(correct_names@), name@, threshold as int)
                == name@,
        },
{
    let ghost names = string_views(correct_names@);
    let mut k: usize = 0;
    while k < correct_names.len()
        invariant
            0 <= k <= correct_names@.len(),
            names == string_views(correct_names@),
            forall|j: int| 0 <= j < k ==> !eq_ignore_ascii(#[trigger] names[j], name@),
        decreases correct_names@.len() - k,
    {
        if eq_ignore_ascii_case(correct_names[k].as_str(), name.as_str()) {
            proof {
                assert(eq_ignore_ascii(names[k as int], name@));
                assert(has_ci_match(names, name@));
            }
            return Option::None;
        }
        k += 1;
    }
    proof {
        assert(!has_ci_match(names, name@));
    }
    let lower_t = to_lowercase(name);
    let mut best_i: usize = 0;
    let mut best_d: usize = usize::MAX;
    let mut found: bool = false;
    let mut j: usize = 0;
    while j < correct_names.len()
        invariant
            0 <= j <= correct_names@.len(),
            names == string_views(correct_names@),
            lower_t@ == lower_of(name@),
            found ==> best_i < j,
            !found ==> best_d == usize::MAX,
            best_match(names, name@) == best_scan(
                names,
                name@,
                j as int,
                if found {
                    best_i as int
                } else {
                    -1
                },
                best_d as int,
            ),
        decreases correct_names@.len() - j,
    {
        let lk = to_lowercase(&correct_names[j]);
        let d = levenshtein(lower_t.as_str(), lk.as_str());
        proof {
            assert(lk@ == lower_of(names[j as int]));
            assert(d as int == ci_distance(name@, names[j as int]));
        }
        if d < best_d {
            best_d = d;
            best_i = j;
            found = true;
        }
        j += 1;
    }
    if found && best_d > 0 && best_d <= threshold {
        Option::Some((correct_names[best_i].clone(), best_d))
    } else {
        Option::None
    }
}

/// A record of one name rewrite, for the caller's reporting.
#[derive(Debug, PartialEq, Eq)]
pub struct Correction {
    pub board_name: String,
    pub board_year: String,
    pub found: String,
    pub corrected: String,
    pub distance: usize,
}

/// Rewrites misspelled member names on the target year's boards to the
/// closest roster spelling, and reports each rewrite.  A name already
/// equal to a roster name ignoring ASCII case is left alone; otherwise the
/// roster name at the least edit distance between the lowercased texts
/// (ties to the first) replaces it when that distance is positive and at
/// most `threshold`.  Boards of other years are untouched.
pub fn apply_fuzzy_corrections(
    boards: &mut Vec<Board>,
    correct_names: &Vec<String>,
    target_year: &String,
    threshold: usize,
) -> (r: Vec<Correction>)
    ensures
        final (boards)@.len() == old(boards)@.len(),
        forall|k: int|
            0 <= k < final (boards)@.len() ==> (#[trigger] final (boards)@[k])@ == corrected_board(
                old(boards)@[k]@,
                string_views(correct_names@),
                target_year@,
                threshold as int,
            ),
        forall|k: int| 0 <= k < r@.len() ==> 0 < (#[trigger] r@[k]).distance <= threshold,
{
    let ghost names = string_views(correct_names@);
    let ghost b0 = boards@;
    let mut corrections: Vec<Correction> = Vec::new();
    let mut bi: usize = 0;
    while bi < boards.len()
        invariant
            0 <= bi <= boards@.len(),
            boards@.len() == b0.len(),
            b0 == old(boards)@,
            names == string_views(correct_names@),
            forall|k: int|
                0 <= k < bi ==> (#[trigger] boards@[k])@ == corrected_board(
                    b0[k]@,
                    names,
                    target_year@,
                    threshold as int,
                ),
            forall|k: int| bi <= k < boards@.len() ==> #[trigger] boards@[k] == b0[k],
            forall|k: int|
                0 <= k < corrections@.len() ==> 0 < (#[trigger] corrections@[k]).distance
                    <= threshold,
        decreases boards@.len() - bi,
    {
        let is_target = string_eq(&boards[bi].year, target_year);
        if is_target {
            let ghost gseq0 = boards@;
            let mut b = boards.remove(bi);
            let ghost bview0 = b@;
            let mut new_members: Vec<Member> = Vec::new();
            let mut mi: usize = 0;
            while mi < b.members.len()
                invariant
                    0 <= mi <= b.members@.len(),
                    names == string_views(correct_names@),
                    bview0 == b@,
                    new_members@.len() == mi,
                    forall|k: int|
                        0 <= k < mi ==> (#[trigger] new_members@[k])@ == corrected_member(
                            bview0.members[k],
                            names,
                            threshold as int,
                        ),
                    forall|k: int|
                        0 <= k < corrections@.len() ==> 0 < (#[trigger] corrections@[k]).distance
                            <= threshold,
                decreases b.members@.len() - mi,
            {
                let m = &b.members[mi];
                match corrected_for(&m.name, correct_names, threshold) {
                    Option::Some(p) => {
                        let (nn, d) = p;
                        corrections.push(
                            Correction {
                                board_name: b.name.clone(),
                                board_year: b.year.clone(),
                                found: m.name.clone(),
                                corrected: nn.clone(),
                                distance: d,
                            },
                        );
                        new_members.push(Member { position: m.position.clone(), name: nn });
                    },
                    Option::None => {
                        new_members.push(m.clone());
                    },
                }
                mi += 1;
            }
            b.members = new_members;
            proof {
                assert(b@ =~~= corrected_board(bview0, names, target_year@, threshold as int));
            }
            boards.insert(bi, b);
            proof {
                assert(boards@ =~= gseq0.update(bi as int, boards@[bi as int]));
            }
        } else {
            proof {
                assert(boards@[bi as int]@ == corrected_board(
                    b0[bi as int]@,
                    names,
                    target_year@,
                    threshold as int,
                ));
            }
        }
        bi += 1;
    }
    corrections
}

/// The numeric value of a run of ASCII digits, most significant first.
pub open spec fn digits_value(s: Seq<char>) -> int
    decreases s.len(),
{
    if s.len() == 0 {
        0
    } else {
        digits_value(s.drop_last()) * 10 + (s.last() as u32 - 48)
    }
}

/// A non-empty run of ASCII digits.
pub open spec fn all_digits(s: Seq<char>) -> bool {
    s.len() > 0 && forall|i: int| 0 <= i < s.len() ==> is_ascii_digit(#[trigger] s[i])
}

/// What `str::parse::<i32>` accepts: an optional sign, then decimal
/// digits, the value fitting the type's range.
pub open spec fn i32_of_text(s: Seq<char>) -> Option<int> {
    let signed = s.len() > 0 && (s[0] == '+' || s[0] == '-');
    let ds = if signed {
        s.drop_first()
    } else {
        s
    };
    let sign: int = if s.len() > 0 && s[0] == '-' {
        -1
    } else {
        1
    };
    if all_digits(ds) {
        let v = sign * digits_value(ds);
        if i32::MIN as int <= v <= i32::MAX as int {
            Option::Some(v)
        } else {
            Option::None
        }
    } else {
        Option::None
    }
}

proof fn lemma_digits_value_nonneg(s: Seq<char>)
    requires
        forall|i: int| 0 <= i < s.len() ==> is_ascii_digit(#[trigger] s[i]),
    ensures
        digits_value(s) >= 0,
    decreases s.len(),
{
    if s.len() > 0 {
        assert(forall|i: int| 0 <= i < s.drop_last().len() ==> s.drop_last()[i] == s[i]);
        lemma_digits_value_nonneg(s.drop_last());
        assert(is_ascii_digit(s.last()));
    }
}

proof fn lemma_digits_value_prefix(s: Seq<char>, i: int)
    requires
        forall|k: int| 0 <= k < s.len() ==> is_ascii_digit(#[trigger] s[k]),
        0 <= i <= s.len(),
    ensures
        digits_value(s.take(i)) <= digits_value(s),
    decreases s.len() - i,
{
    if i < s.len() {
        assert(s.take(i + 1).drop_last() =~= s.take(i));
        assert(s.take(i + 1).last() == s[i]);
        assert(forall|k: int| 0 <= k < s.take(i).len() ==> s.take(i)[k] == s[k]);
        lemma_digits_value_nonneg(s.take(i));
        assert(is_ascii_digit(s[i]));
        assert(digits_value(s.take(i + 1)) == digits_value(s.take(i)) * 10 + (s[i] as u32 - 48));
        assert(digits_value(s.take(i)) <= digits_value(s.take(i + 1)));
        lemma_digits_value_prefix(s, i + 1);
        assert(s.take(s.len() as int) =~= s);
    } else {
        assert(s.take(i) =~= s);
    }
}

/// Reads a signed 32-bit integer from text, exactly as the standard
/// parser accepts one: an optional sign, decimal digits, value in range.
pub fn parse_i32(s: &str) -> (r: Option<i32>)
    ensures
        match r {
            Option::Some(v) => i32_of_text(s@) == Option::Some(v as int),
            Option::None => i32_of_text(s@) is None,
        },
{
    let cs = str_to_chars(s);
    let n = cs.len();
    let mut neg: bool = false;
    let mut st: usize = 0;
    if n > 0 && (cs[0] == '+' || cs[0] == '-') {
        neg = cs[0] == '-';
        st = 1;
    }
    let ghost ds = if st == 1 {
        s@.drop_first()
    } else {
        s@
    };
    proof {
        assert(forall|k: int| 0 <= k < ds.len() ==> ds[k] == s@[k + st]);
    }
    if st >= n {
        proof {
            assert(ds.len() == 0);
        }
        return Option::None;
    }
    let mut i: usize = st;
    while i < n
        invariant
            st <= i <= n,
            n == cs@.len(),
            cs@ == s@,
            st == 0 || st == 1,
            (st == 1) == (s@.len() > 0 && (s@[0] == '+' || s@[0] == '-')),
            neg == (s@.len() > 0 && s@[0] == '-'),
            ds == (if st == 1 {
                s@.drop_first()
            } else {
                s@
            }),
            forall|k: int| st <= k < i ==> is_ascii_digit(#[trigger] s@[k]),
        decreases n - i,
    {
        if !is_digit_char(cs[i]) {
            proof {
                assert(ds[i - st] == s@[i as int]);
                assert(!all_digits(ds));
            }
            return Option::None;
        }
        i += 1;
    }
    proof {
        assert forall|k: int| 0 <= k < ds.len() implies is_ascii_digit(#[trigger] ds[k]) by {
            assert(ds[k] == s@[k + st]);
        }
        assert(all_digits(ds));
    }
    let mut acc: u64 = 0;
    let mut i2: usize = st;
    proof {
        assert(ds.take(0) =~= Seq::<char>::empty());
    }
    while i2 < n
        invariant
            st <= i2 <= n,
            n == cs@.len(),
            cs@ == s@,
            st == 0 || st == 1,
            (st == 1) == (s@.len() > 0 && (s@[0] == '+' || s@[0] == '-')),
            neg == (s@.len() > 0 && s@[0] == '-'),
            ds == (if st == 1 {
                s@.drop_first()
            } else {
                s@
            }),
            all_digits(ds),
            ds.len() == n - st,
            forall|k: int| 0 <= k < ds.len() ==> ds[k] == s@[k + st],
            acc as int == digits_value(ds.take(i2 - st)),
            acc <= 0x8000_0000u64,
        decreases n - i2,
    {
        proof {
            assert(ds[i2 - st] == s@[i2 as int]);
            assert(is_ascii_digit(ds[i2 - st]));
        }
        let d: u64 = (cs[i2] as u32 - 48) as u64;
        let newacc: u64 = acc * 10 + d;
        proof {
            assert(ds.take(i2 - st + 1).drop_last() =~= ds.take(i2 - st));
            assert(ds.take(i2 - st + 1).last() == ds[i2 - st]);
            assert(newacc as int == digits_value(ds.take(i2 - st + 1)));
        }
        if newacc > 0x8000_0000u64 {
            proof {
                lemma_digits_value_prefix(ds, i2 - st + 1);
                assert(digits_value(ds) > 0x8000_0000);
                if s@.len() > 0 && s@[0] == '-' {
                    assert((-1) * digits_value(ds) < i32::MIN as int);
                } else {
                    assert(1 * digits_value(ds) > i32::MAX as int);
                }
                assert(i32_of_text(s@) is None);
            }
            return Option::None;
        }
        acc = newacc;
        i2 += 1;
    }
    proof {
        assert(ds.take((n - st) as int) =~= ds);
        assert(acc as int == digits_value(ds));
    }
    if neg {
        let v64: i64 = -(acc as i64);
        let v: i32 = v64 as i32;
        proof {
            assert(i32::MIN as int <= v64 as int <= 0);
            assert(v as int == (-1) * digits_value(ds));
        }
        Option::Some(v)
    } else {
        if acc > 0x7fff_ffffu64 {
            proof {
                assert(digits_value(ds) > i32::MAX as int);
            }
            return Option::None;
        }
        let v: i32 = acc as i32;
        proof {
            assert(v as int == 1 * digits_value(ds));
        }
        Option::Some(v)
    }
}

/// The decimal digit character for `d`.
pub open spec fn digit_char_of(d: int) -> char {
    (((d + 48) as u8) as char)
}

/// The decimal digits of a nonnegative number, most significant first.
pub open spec fn dec_digits_of(m: nat) -> Seq<char>
    decreases m,
{
    if m < 10 {
        seq![digit_char_of(m as int)]
    } else {
        dec_digits_of((m / 10) as nat).push(digit_char_of((m % 10) as int))
    }
}

/// The decimal text of an integer, with a leading minus for negatives.
pub open spec fn int_text(v: int) -> Seq<char> {
    if v < 0 {
        seq!['-'] + dec_digits_of((-v) as nat)
    } else {
        dec_digits_of(v as nat)
    }
}

fn push_dec_digits(m: u64, out: &mut Vec<char>)
    ensures
        final (out)@ == old(out)@ + dec_digits_of(m as nat),
    decreases m,
{
    let ghost out0 = out@;
    if m >= 10 {
        push_dec_digits(m / 10, out);
    }
    let d: u8 = (m % 10) as u8 + 48;
    out.push(d as char);
    proof {
        assert(d as char == digit_char_of((m % 10) as int));
        if m < 10 {
            assert(m % 10 == m);
            assert(out@ =~= out0 + seq![digit_char_of(m as int)]);
        } else {
            assert(out@ =~= out0 + dec_digits_of((m / 10) as nat).push(
                digit_char_of((m % 10) as int),
            ));
        }
    }
}

/// Formats a signed 32-bit integer in decimal.
pub fn i32_to_string(v: i32) -> (r: String)
    ensures
        r@ == int_text(v as int),
{
    let mut cs: Vec<char> = Vec::new();
    let m: u64;
    if v < 0 {
        cs.push('-');
        m = (-(v as i64)) as u64;
        proof {
            assert(cs@ =~= seq!['-']);
        }
    } else {
        m = v as u64;
        proof {
            assert(cs@ =~= Seq::<char>::empty());
        }
    }
    push_dec_digits(m, &mut cs);
    proof {
        if v >= 0 {
            assert(Seq::<char>::empty() + dec_digits_of(m as nat) =~= dec_digits_of(m as nat));
        }
    }
    chars_to_string(&cs)
}

/// Whether the text has exactly one `/` parting two halves.
pub open spec fn year_halves_ok(s: Seq<char>) -> bool {
    let i = find_char_from(s, '/', 0);
    0 <= i < s.len() && find_char_from(s, '/', i + 1) == s.len()
}

/// The text before the first `/`.
pub open spec fn year_first_half(s: Seq<char>) -> Seq<char> {
    s.take(find_char_from(s, '/', 0))
}

/// The text after the first `/`.
pub open spec fn year_second_half(s: Seq<char>) -> Seq<char> {
    s.skip(find_char_from(s, '/', 0) + 1)
}

/// A year half whose previous year the result type can carry.
pub open spec fn year_part_ok(o: Option<int>) -> bool {
    o matches Option::Some(v) && v > i32::MIN as int
}

/// The fiscal year before `current_year`: both `/`-separated numbers less
/// one.  A text without exactly one `/` is rejected, as is a half that is
/// no number; a half whose predecessor the numeric type cannot carry is
/// rejected with the same message as one that does not parse.
pub fn get_previous_year(current_year: &str) -> (r: Result<String, String>)
    ensures
        match r {
            Result::Ok(y) => ({
                &&& year_halves_ok(current_year@)
                &&& i32_of_text(year_first_half(current_year@)) matches Option::Some(sv)
                    && i32_of_text(year_second_half(current_year@)) matches Option::Some(ev) && sv
                    > i32::MIN as int && ev > i32::MIN as int && y@ == int_text(sv - 1)
                    + seq!['/'] + int_text(ev - 1)
            }),
            Result::Err(m) => ({
                ||| (!year_halves_ok(current_year@) && m@ == "Fel format på årtal"@)
                ||| (year_halves_ok(current_year@) && !year_part_ok(
                    i32_of_text(year_first_half(current_year@)),
                ) && m@ == "Fel startår"@)
                ||| (year_halves_ok(current_year@) && year_part_ok(
                    i32_of_text(year_first_half(current_year@)),
                ) && !year_part_ok(i32_of_text(year_second_half(current_year@))) && m@
                    == "Fel slutår"@)
            }),
        },
{
    let cs = str_to_chars(current_year);
    let n = cs.len();
    let i = find_char_vec(&cs, '/', 0);
    if i >= n {
        return Result::Err(String::from_str("Fel format på årtal"));
    }
    let j = find_char_vec(&cs, '/', i + 1);
    if j < n {
        return Result::Err(String::from_str("Fel format på årtal"));
    }
    let p0 = chars_to_string(&copy_range(&cs, 0, i));
    let p1 = chars_to_string(&copy_range(&cs, i + 1, n));
    proof {
        assert(p0@ =~= year_first_half(current_year@));
        assert(p1@ =~= year_second_half(current_year@));
    }
    let sv = match parse_i32(p0.as_str()) {
        Option::Some(v) => v,
        Option::None => {
            return Result::Err(String::from_str("Fel startår"));
        },
    };
    if sv == i32::MIN {
        return Result::Err(String::from_str("Fel startår"));
    }
    let ev = match parse_i32(p1.as_str()) {
        Option::Some(v) => v,
        Option::None => {
            return Result::Err(String::from_str("Fel slutår"));
        },
    };
    if ev == i32::MIN {
        return Result::Err(String::from_str("Fel slutår"));
    }
    let a = i32_to_string(sv - 1);
    let b = i32_to_string(ev - 1);
    let mut out = a;
    proof {
        reveal_strlit("/");
        assert("/"@ =~= seq!['/']);
    }
    out.append("/");
    out.append(b.as_str());
    Result::Ok(out)
}

} // verus!
