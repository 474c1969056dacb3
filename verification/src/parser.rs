//! Text-level parsing of board rosters.
//!
//! The structural extraction of a source document (markup traversal) is a
//! caller concern; what belongs to the library is the text format itself:
//! member lines of the form `<position>: <name>`, where a name may continue
//! on following lines without a colon, and the `YYYY/YYYY` fiscal-year span
//! looked for in heading text.

use vstd::prelude::*;
use vstd::string::StrSliceExecFns;

use crate::types::{Board, Member, MemberView, member_views};

verus! {

/// What `str::trim` returns for the given characters: the result depends
/// on the characters alone.
pub uninterp spec fn trim_of(s: Seq<char>) -> Seq<char>;

/// Relies on `str::trim`: removes leading and trailing whitespace, a
/// function of the characters alone that never lengthens the text.
#[verifier::external_body]
pub(crate) fn trim_chars(s: &String) -> (r: String)
    ensures
        r@ == trim_of(s@),
        r@.len() <= s@.len(),
{
    s.trim().to_string()
}

/// Relies on `String`'s `FromIterator<char>`: collects exactly the given
/// characters into a string.
#[verifier::external_body]
pub(crate) fn chars_to_string(cs: &Vec<char>) -> (r: String)
    ensures
        r@ == cs@,
{
    cs.iter().collect()
}

/// The characters of a string slice, as a vector.
pub(crate) fn str_to_chars(s: &str) -> (r: Vec<char>)
    ensures
        r@ == s@,
{
    let n = s.unicode_len();
    let mut r: Vec<char> = Vec::new();
    let mut i: usize = 0;
    while i < n
        invariant
            0 <= i <= n,
            n == s@.len(),
            r@ =~= s@.take(i as int),
        decreases n - i,
    {
        r.push(s.get_char(i));
        i += 1;
    }
    proof {
        assert(r@ =~= s@);
    }
    r
}

/// A copy of `cs[from..to]`.
pub(crate) fn copy_range(cs: &Vec<char>, from: usize, to: usize) -> (r: Vec<char>)
    requires
        from <= to <= cs@.len(),
    ensures
        r@ == cs@.subrange(from as int, to as int),
{
    let mut r: Vec<char> = Vec::new();
    let mut i: usize = from;
    while i < to
        invariant
            from <= i <= to <= cs@.len(),
            r@ =~= cs@.subrange(from as int, i as int),
        decreases to - i,
    {
        r.push(cs[i]);
        proof {
            assert(r@ =~= cs@.subrange(from as int, i as int + 1));
        }
        i += 1;
    }
    r
}

/// The least index at or after `i` holding character `c`, or the length of
/// `s` when there is none.
pub open spec fn find_char_from(s: Seq<char>, c: char, i: int) -> int
    decreases s.len() - i,
{
    if i < 0 || i >= s.len() {
        s.len() as int
    } else if s[i] == c {
        i
    } else {
        find_char_from(s, c, i + 1)
    }
}

proof fn lemma_find_char_from_bounds(s: Seq<char>, c: char, i: int)
    requires
        0 <= i <= s.len(),
    ensures
        i <= find_char_from(s, c, i) <= s.len(),
        find_char_from(s, c, i) < s.len() ==> s[find_char_from(s, c, i)] == c,
    decreases s.len() - i,
{
    if i < s.len() && s[i] != c {
        lemma_find_char_from_bounds(s, c, i + 1);
    }
}

/// The least index at or after `from` holding `c`, or the length.
pub(crate) fn find_char_vec(cs: &Vec<char>, c: char, from: usize) -> (r: usize)
    requires
        from <= cs@.len(),
    ensures
        r == find_char_from(cs@, c, from as int),
        from <= r <= cs@.len(),
        r < cs@.len() ==> cs@[r as int] == c,
{
    let mut i: usize = from;
    while i < cs.len()
        invariant
            from <= i <= cs@.len(),
            find_char_from(cs@, c, from as int) == find_char_from(cs@, c, i as int),
        decreases cs@.len() - i,
    {
        if cs[i] == c {
            proof {
                lemma_find_char_from_bounds(cs@, c, from as int);
            }
            return i;
        }
        i += 1;
    }
    proof {
        lemma_find_char_from_bounds(cs@, c, from as int);
    }
    i
}

/// A line that ended in `\r\n` loses the carriage return, as `str::lines`
/// strips it.
pub open spec fn strip_cr(l: Seq<char>) -> Seq<char> {
    if l.len() > 0 && l.last() == '\r' {
        l.drop_last()
    } else {
        l
    }
}

/// The lines of a text, as `str::lines` yields them: split at `'\n'`, a
/// `\r\n` ending stripped whole, no final empty line after a trailing
/// newline.  A carriage return not followed by a newline stays in its
/// line.
pub open spec fn split_lines(s: Seq<char>) -> Seq<Seq<char>>
    decreases s.len(),
{
    if s.len() == 0 {
        Seq::<Seq<char>>::empty()
    } else {
        let i = find_char_from(s, '\n', 0);
        if !(0 <= i < s.len()) {
            seq![s]
        } else {
            seq![strip_cr(s.take(i))] + split_lines(s.skip(i + 1))
        }
    }
}

proof fn lemma_find_char_skip(s: Seq<char>, c: char, p: int, i: int)
    requires
        0 <= p <= i <= s.len(),
    ensures
        find_char_from(s, c, i) - p == find_char_from(s.skip(p), c, i - p),
    decreases s.len() - i,
{
    assert(s.skip(p).len() == s.len() - p);
    if i < s.len() {
        assert(s.skip(p)[i - p] == s[i]);
        if s[i] != c {
            lemma_find_char_skip(s, c, p, i + 1);
        }
    }
}

/// The views of a vector of line strings.
pub open spec fn line_views(ls: Seq<String>) -> Seq<Seq<char>> {
    ls.map_values(|l: String| l@)
}

/// Splits a text into its lines, as `str::lines` does.
fn split_text_lines(s: &str) -> (r: Vec<String>)
    ensures
        line_views(r@) == split_lines(s@),
{
    let cs = str_to_chars(s);
    let n = cs.len();
    let mut r: Vec<String> = Vec::new();
    let mut p: usize = 0;
    proof {
        assert(line_views(r@) =~= Seq::<Seq<char>>::empty());
        assert(s@.skip(0) =~= s@);
    }
    while p < n
        invariant
            0 <= p <= n,
            n == cs@.len(),
            cs@ == s@,
            split_lines(s@) == line_views(r@) + split_lines(s@.skip(p as int)),
        decreases n - p,
    {
        let ghost r0 = r@;
        let ghost rest = s@.skip(p as int);
        let i = find_char_vec(&cs, '\n', p);
        proof {
            lemma_find_char_skip(s@, '\n', p as int, p as int);
            assert(find_char_from(rest, '\n', 0) == i - p);
        }
        let raw_end = if i < n {
            i
        } else {
            n
        };
        // drop a carriage return only from a segment that a newline ended
        let line_end = if i < n && raw_end > p && cs[raw_end - 1] == '\r' {
            raw_end - 1
        } else {
            raw_end
        };
        let seg = copy_range(&cs, p, line_end);
        let line = chars_to_string(&seg);
        r.push(line);
        proof {
            assert(rest.take(i - p as int) =~= s@.subrange(p as int, i as int));
            if i < n {
                let segfull = rest.take(i - p as int);
                assert(segfull =~= s@.subrange(p as int, i as int));
                assert(strip_cr(segfull) =~= s@.subrange(p as int, line_end as int));
                assert(line_views(r@) =~= line_views(r0).push(strip_cr(segfull)));
                assert(split_lines(rest) == seq![strip_cr(rest.take(i - p as int))] + split_lines(
                    rest.skip(i - p as int + 1),
                ));
                assert(rest.skip(i - p as int + 1) =~= s@.skip(i as int + 1));
                assert(line_views(r@) + split_lines(s@.skip(i as int + 1)) =~= line_views(r0)
                    + split_lines(rest));
            } else {
                assert(rest =~= s@.subrange(p as int, n as int));
                assert(line_views(r@) =~= line_views(r0).push(rest));
                assert(split_lines(rest) == seq![rest]);
                assert(s@.skip(n as int) =~= Seq::<char>::empty());
                assert(line_views(r@) + split_lines(s@.skip(n as int)) =~= line_views(r0)
                    + split_lines(rest));
            }
        }
        if i < n {
            p = i + 1;
        } else {
            p = n;
        }
    }
    proof {
        assert(s@.skip(n as int) =~= Seq::<char>::empty());
        assert(line_views(r@) + Seq::<Seq<char>>::empty() =~= line_views(r@));
    }
    r
}

/// An ASCII decimal digit.
pub open spec fn is_ascii_digit(c: char) -> bool {
    48 <= c as u32 <= 57
}

/// Whether the nine characters starting at `i` read `20xx/20yy`: the
/// fiscal-year span looked for in heading text.
pub open spec fn year_match_at(s: Seq<char>, i: int) -> bool {
    &&& 0 <= i
    &&& i + 9 <= s.len()
    &&& s[i] == '2'
    &&& s[i + 1] == '0'
    &&& is_ascii_digit(s[i + 2])
    &&& is_ascii_digit(s[i + 3])
    &&& s[i + 4] == '/'
    &&& s[i + 5] == '2'
    &&& s[i + 6] == '0'
    &&& is_ascii_digit(s[i + 7])
    &&& is_ascii_digit(s[i + 8])
}

/// The least index at or after `i` where a fiscal-year span starts, or -1
/// when there is none.
pub open spec fn year_scan(s: Seq<char>, i: int) -> int
    decreases s.len() - i,
{
    if i < 0 || i + 9 > s.len() {
        -1
    } else if year_match_at(s, i) {
        i
    } else {
        year_scan(s, i + 1)
    }
}

proof fn lemma_year_scan_props(s: Seq<char>, i: int)
    requires
        0 <= i,
    ensures
        year_scan(s, i) == -1 ==> forall|j: int| i <= j ==> !year_match_at(s, j),
        year_scan(s, i) >= 0 ==> i <= year_scan(s, i) && year_match_at(s, year_scan(s, i)) && forall|
            j: int,
        | i <= j < year_scan(s, i) ==> !year_match_at(s, j),
    decreases s.len() + 9 - i,
{
    if i + 9 > s.len() {
        assert forall|j: int| i <= j implies !year_match_at(s, j) by {
            assert(j + 9 > s.len());
        }
    } else if !year_match_at(s, i) {
        lemma_year_scan_props(s, i + 1);
    }
}

pub(crate) fn is_digit_char(c: char) -> (r: bool)
    ensures
        r == is_ascii_digit(c),
{
    let u = c as u32;
    u >= 48 && u <= 57
}

fn year_at(cs: &Vec<char>, i: usize) -> (r: bool)
    requires
        i <= usize::MAX - 9,
        i + 9 <= cs@.len(),
    ensures
        r == year_match_at(cs@, i as int),
{
    cs[i] == '2' && cs[i + 1] == '0' && is_digit_char(cs[i + 2]) && is_digit_char(cs[i + 3])
        && cs[i + 4] == '/' && cs[i + 5] == '2' && cs[i + 6] == '0' && is_digit_char(cs[i + 7])
        && is_digit_char(cs[i + 8])
}

/// Finds the first fiscal-year span `20xx/20yy` in a text, or reports that
/// there is none.
pub fn find_year_span(text: &str) -> (r: Option<String>)
    ensures
        match r {
            Option::Some(y) => ({
                let i = year_scan(text@, 0);
                &&& i >= 0
                &&& year_match_at(text@, i)
                &&& forall|j: int| 0 <= j < i ==> !year_match_at(text@, j)
                &&& y@ == text@.subrange(i, i + 9)
            }),
            Option::None => forall|j: int| !year_match_at(text@, j),
        },
{
    proof {
        lemma_year_scan_props(text@, 0);
    }
    let cs = str_to_chars(text);
    let n = cs.len();
    if n < 9 {
        return Option::None;
    }
    let mut i: usize = 0;
    while i <= n - 9
        invariant
            9 <= n == cs@.len(),
            cs@ == text@,
            0 <= i <= n - 9 + 1,
            year_scan(text@, 0) == year_scan(text@, i as int),
        decreases n - i,
    {
        if year_at(&cs, i) {
            let seg = copy_range(&cs, i, i + 9);
            let y = chars_to_string(&seg);
            proof {
                assert(year_scan(text@, i as int) == i as int);
                lemma_year_scan_props(text@, 0);
            }
            return Option::Some(y);
        }
        i += 1;
    }
    Option::None
}

/// Collects a parsed board into the running list: at most one board per
/// name and year is kept, the first one with members winning; a board
/// without members is dropped.
pub fn add_parsed_board(boards: &mut Vec<Board>, b: Board)
    ensures
        ({
            let i = crate::config::first_with_year_from(old(boards)@, b@.name, b@.year, 0);
            if b.members@.len() == 0 {
                final (boards)@ == old(boards)@
            } else if i >= 0 {
                if old(boards)@[i].members@.len() > 0 {
                    final (boards)@ == old(boards)@
                } else {
                    final (boards)@ == old(boards)@.update(i, b)
                }
            } else {
                final (boards)@ == old(boards)@.push(b)
            }
        }),
{
    if b.members.is_empty() {
        return ;
    }
    let mut k: usize = 0;
    while k < boards.len()
        invariant
            0 <= k <= boards@.len(),
            boards@ == old(boards)@,
            b.members@.len() > 0,
            crate::config::first_with_year_from(boards@, b@.name, b@.year, 0)
                == crate::config::first_with_year_from(boards@, b@.name, b@.year, k as int),
        decreases boards@.len() - k,
    {
        let nm = crate::names::string_eq(&boards[k].name, &b.name);
        let yr = crate::names::string_eq(&boards[k].year, &b.year);
        if nm && yr {
            proof {
                assert(crate::config::first_with_year_from(boards@, b@.name, b@.year, k as int)
                    == k as int);
            }
            if boards[k].members.len() > 0 {
                return ;
            }
            let ghost before = boards@;
            boards.remove(k);
            boards.insert(k, b);
            proof {
                assert(boards@ =~= before.update(k as int, boards@[k as int]));
            }
            return ;
        }
        k += 1;
    }
    boards.push(b);
}

/// The view of a member under construction, if any.
pub open spec fn opt_member_view(c: Option<Member>) -> Option<MemberView> {
    match c {
        Option::None => Option::None,
        Option::Some(m) => Option::Some(m@),
    }
}

/// The members read from the given lines, continuing the member `cur`
/// whose name may still grow.  A line with a colon starts a member:
/// position before the first colon, name after it, both trimmed, and a
/// member with an empty position is dropped.  A non-empty line without a
/// colon continues the current member's name, joined with a space.  Empty
/// lines are skipped.
pub open spec fn parse_members_from(lines: Seq<Seq<char>>, cur: Option<MemberView>) -> Seq<
    MemberView,
>
    decreases lines.len(),
{
    if lines.len() == 0 {
        match cur {
            Option::None => Seq::<MemberView>::empty(),
            Option::Some(m) => seq![m],
        }
    } else {
        let cleaned = trim_of(lines[0]);
        let rest = lines.drop_first();
        if cleaned.len() == 0 {
            parse_members_from(rest, cur)
        } else {
            let ci = find_char_from(cleaned, ':', 0);
            if 0 <= ci < cleaned.len() {
                let pos = trim_of(cleaned.take(ci));
                let nm = trim_of(cleaned.skip(ci + 1));
                let flushed = match cur {
                    Option::None => Seq::<MemberView>::empty(),
                    Option::Some(m) => seq![m],
                };
                if pos.len() == 0 {
                    flushed + parse_members_from(rest, Option::None)
                } else {
                    flushed + parse_members_from(
                        rest,
                        Option::Some(MemberView { position: pos, name: nm }),
                    )
                }
            } else {
                match cur {
                    Option::None => parse_members_from(rest, Option::None),
                    Option::Some(m) => parse_members_from(
                        rest,
                        Option::Some(
                            MemberView {
                                position: m.position,
                                name: if m.name.len() == 0 {
                                    cleaned
                                } else {
                                    m.name + seq![' '] + cleaned
                                },
                            },
                        ),
                    ),
                }
            }
        }
    }
}

/// The members encoded in a whole text.
pub open spec fn members_of_text(s: Seq<char>) -> Seq<MemberView> {
    parse_members_from(split_lines(s), Option::None)
}

proof fn lemma_member_views_push(ms: Seq<Member>, m: Member)
    ensures
        member_views(ms.push(m)) =~= member_views(ms).push(m@),
{
}

/// Reads the members listed in a text, one `<position>: <name>` per line,
/// where a name may continue on following lines that hold no colon.
pub fn parse_members_multiline(input: &str) -> (r: Vec<Member>)
    ensures
        member_views(r@) == members_of_text(input@),
{
    let lines = split_text_lines(input);
    let ghost lv = line_views(lines@);
    let mut members: Vec<Member> = Vec::new();
    let mut cur: Option<Member> = Option::None;
    let mut li: usize = 0;
    proof {
        assert(lv.skip(0) =~= lv);
        assert(member_views(members@) =~= Seq::<MemberView>::empty());
        assert(member_views(members@) + parse_members_from(lv, opt_member_view(cur))
            =~= parse_members_from(lv, Option::None));
    }
    while li < lines.len()
        invariant
            0 <= li <= lines@.len(),
            lv == line_views(lines@),
            members_of_text(input@) == member_views(members@) + parse_members_from(
                lv.skip(li as int),
                opt_member_view(cur),
            ),
        decreases lines@.len() - li,
    {
        let ghost lines2 = lv.skip(li as int);
        let ghost cur0 = opt_member_view(cur);
        let ghost mem0 = members@;
        proof {
            assert(lines2[0] == lv[li as int]);
            assert(lines2.drop_first() =~= lv.skip(li as int + 1));
        }
        let cleaned = trim_chars(&lines[li]);
        if cleaned.as_str().is_empty() {
            // skipped line: nothing changes
        } else {
            let cchars = str_to_chars(cleaned.as_str());
            let ci = find_char_vec(&cchars, ':', 0);
            if ci < cchars.len() {
                match cur {
                    Option::Some(m) => {
                        members.push(m);
                        proof {
                            lemma_member_views_push(mem0, members@.last());
                        }
                    },
                    Option::None => {},
                }
                let pos_raw = copy_range(&cchars, 0, ci);
                let pos_str = chars_to_string(&pos_raw);
                let pos = trim_chars(&pos_str);
                let nm_raw = copy_range(&cchars, ci + 1, cchars.len());
                let nm_str = chars_to_string(&nm_raw);
                let nm = trim_chars(&nm_str);
                proof {
                    assert(cchars@.subrange(0, ci as int) =~= cleaned@.take(ci as int));
                    assert(cchars@.subrange(ci as int + 1, cchars@.len() as int) =~= cleaned@.skip(
                        ci as int + 1,
                    ));
                }
                if pos.as_str().is_empty() {
                    cur = Option::None;
                } else {
                    cur = Option::Some(Member { position: pos, name: nm });
                }
                proof {
                    assert(member_views(members@) + parse_members_from(
                        lv.skip(li as int + 1),
                        opt_member_view(cur),
                    ) =~= mem0.map_values(|m: Member| m@) + parse_members_from(
                        lines2,
                        cur0,
                    ));
                }
            } else {
                match cur {
                    Option::Some(m) => {
                        let new_name = if m.name.as_str().is_empty() {
                            cleaned
                        } else {
                            proof {
                                reveal_strlit(" ");
                                assert(" "@ =~= seq![' ']);
                            }
                            let joined = m.name.concat(" ");
                            joined.concat(cleaned.as_str())
                        };
                        cur = Option::Some(Member { position: m.position, name: new_name });
                    },
                    Option::None => {},
                }
            }
        }
        li += 1;
    }
    match cur {
        Option::Some(m) => {
            let ghost mem0 = members@;
            members.push(m);
            proof {
                lemma_member_views_push(mem0, members@.last());
                assert(lv.skip(lv.len() as int) =~= Seq::<Seq<char>>::empty());
                assert(member_views(members@) =~= members_of_text(input@));
            }
        },
        Option::None => {
            proof {
                assert(lv.skip(lv.len() as int) =~= Seq::<Seq<char>>::empty());
                assert(member_views(members@) + Seq::<MemberView>::empty() =~= member_views(
                    members@,
                ));
            }
        },
    }
    members
}

} // verus!
