//! Transition rules: their text form `(from, read) -> (to, write, dir)` and
//! the parser that reads one line of it.
use vstd::prelude::*;

use crate::text::{
    arrow, arrow_at, chars_of, comma, find_arrow, find_char, in_class, is_paren, is_trimmed, is_ws,
    lemma_arrow_first, lemma_arrow_none, lemma_comma_first, lemma_comma_none,
    lemma_concat_no_arrow, lemma_match_arrow, lemma_match_comma, lemma_pieces,
    lemma_split_nonempty, lemma_strip_around, lemma_strip_range, lemma_sub_free, no_arrow,
    no_comma, split_pat, string_of, strip_parens, strip_range, trim,
};

verus! {

/// A movement of the head: one cell left or one cell right.
#[derive(Clone, Copy, Debug, PartialEq, Eq, Structural)]
pub enum Direction {
    Left,
    Right,
}

/// The direction that a character of the rule text denotes: `<` or `>`.
pub open spec fn dir_of(c: char) -> Option<Direction> {
    if c == '<' {
        Some(Direction::Left)
    } else if c == '>' {
        Some(Direction::Right)
    } else {
        None
    }
}

/// The character that denotes a direction in the rule text.
pub open spec fn dir_char(d: Direction) -> char {
    match d {
        Direction::Left => '<',
        Direction::Right => '>',
    }
}

impl Direction {
    pub fn from_char(c: char) -> (r: Option<Direction>)
        ensures
            r == dir_of(c),
    {
        if c == '<' {
            Some(Direction::Left)
        } else if c == '>' {
            Some(Direction::Right)
        } else {
            None
        }
    }

    pub fn symbol(&self) -> (r: char)
        ensures
            r == dir_char(*self),
    {
        match self {
            Direction::Left => '<',
            Direction::Right => '>',
        }
    }
}

/// What a transition rule says, as mathematical values.
pub struct Rule {
    pub from: Seq<char>,
    pub read: char,
    pub to: Seq<char>,
    pub write: char,
    pub dir: Direction,
}

/// A rule `(from, read) -> (to, write, dir)`: in state `from` reading `read`,
/// write `write`, move in `dir` and go to state `to`.
#[derive(Clone, Debug)]
pub struct Transition {
    pub from: String,
    pub read: char,
    pub to: String,
    pub write: char,
    pub dir: Direction,
}

impl View for Transition {
    type V = Rule;

    open spec fn view(&self) -> Rule {
        Rule { from: self.from@, read: self.read, to: self.to@, write: self.write, dir: self.dir }
    }
}

/// The text form in which a rule is listed:
/// `(from , read) -> (to , write , dir)`.
pub open spec fn canonical(r: Rule) -> Seq<char> {
    seq!['('] + r.from + seq![' ', ',', ' ', r.read, ')', ' ', '-', '>', ' ', '('] + r.to + seq![
        ' ',
        ',',
        ' ',
        r.write,
        ' ',
        ',',
        ' ',
        dir_char(r.dir),
        ')',
    ]
}

/// Relies on `char`'s `ToString`: the string that holds just that character.
#[verifier::external_body]
fn char_string(c: char) -> (r: String)
    ensures
        r@ == seq![c],
{
    c.to_string()
}

impl Transition {
    /// A copy of the rule.
    pub fn copied(&self) -> (r: Transition)
        ensures
            r@ == self@,
    {
        Transition {
            from: self.from.clone(),
            read: self.read,
            to: self.to.clone(),
            write: self.write,
            dir: self.dir,
        }
    }

    /// The rule in the text form in which a table is listed.
    pub fn to_text(&self) -> (r: String)
        ensures
            r@ == canonical(self@),
    {
        proof {
            reveal_strlit("(");
            reveal_strlit(" , ");
            reveal_strlit(") -> (");
            reveal_strlit(")");
        }
        let mut s = String::from_str("(");
        s.append(self.from.as_str());
        s.append(" , ");
        s.append(char_string(self.read).as_str());
        s.append(") -> (");
        s.append(self.to.as_str());
        s.append(" , ");
        s.append(char_string(self.write).as_str());
        s.append(" , ");
        s.append(char_string(self.dir.symbol()).as_str());
        s.append(")");
        assert(s@ =~= canonical(self@));
        s
    }
}

/// The first character of a field once trimmed, if there is one.
pub open spec fn first_symbol(s: Seq<char>) -> Option<char> {
    if trim(s).len() > 0 {
        Some(trim(s)[0])
    } else {
        None
    }
}

/// The rule given by the two sides of the arrow, their parentheses already
/// stripped: two comma-separated fields on the left, three on the right.
pub open spec fn parse_sides(left: Seq<char>, right: Seq<char>) -> Option<Rule> {
    let lf = split_pat(left, comma());
    let rf = split_pat(right, comma());
    if lf.len() != 2 || rf.len() != 3 {
        None
    } else {
        match (first_symbol(lf[1]), first_symbol(rf[1]), first_symbol(rf[2])) {
            (Some(read), Some(write), Some(d)) => match dir_of(d) {
                Some(dir) => Some(Rule { from: trim(lf[0]), read, to: trim(rf[0]), write, dir }),
                None => None,
            },
            _ => None,
        }
    }
}

/// The rule that a line of text states, if it states one: the trimmed line
/// holds exactly one `->`, and each side, trimmed and stripped of
/// parentheses, has the fields that `parse_sides` asks for.
pub open spec fn parse_line(s: Seq<char>) -> Option<Rule> {
    let parts = split_pat(trim(s), arrow());
    if parts.len() != 2 {
        None
    } else {
        parse_sides(strip_parens(trim(parts[0])), strip_parens(trim(parts[1])))
    }
}

/// A line whose left side holds three comma-separated fields states no
/// rule, whatever its right side holds.
pub proof fn law_left_arity_rejected(s: Seq<char>)
    requires
        split_pat(strip_parens(trim(split_pat(trim(s), arrow())[0])), comma()).len() == 3,
    ensures
        parse_line(s) is None,
{
}

proof fn lemma_side_free(part: Seq<char>)
    requires
        no_arrow(part),
    ensures
        no_arrow(strip_parens(trim(part))),
{
    let (a, b) = lemma_strip_range(part, false);
    lemma_sub_free(part, a, b);
    let x = trim(part);
    let (c, d) = lemma_strip_range(x, true);
    lemma_sub_free(x, c, d);
}

proof fn lemma_field_free(f: Seq<char>)
    requires
        no_arrow(f),
        no_comma(f),
    ensures
        no_arrow(trim(f)),
        no_comma(trim(f)),
        is_trimmed(trim(f)),
{
    let (a, b) = lemma_strip_range(f, false);
    lemma_sub_free(f, a, b);
    if a < b {
        assert(trim(f)[0] == f[a]);
        assert(trim(f).last() == f[b - 1]);
    }
}

proof fn lemma_comma_pieces_free(x: Seq<char>)
    requires
        no_arrow(x),
    ensures
        forall|j: int|
            0 <= j < split_pat(x, comma()).len() ==> no_arrow(#[trigger] split_pat(x, comma())[j])
                && no_comma(split_pat(x, comma())[j]),
{
    let sp = split_pat(x, comma());
    lemma_pieces(x, comma());
    assert forall|j: int| 0 <= j < sp.len() implies no_comma(#[trigger] sp[j]) by {
        assert forall|i: int| 0 <= i < sp[j].len() implies sp[j][i] != ',' by {
            lemma_match_comma(sp[j], i);
        }
    }
}

/// What holds of every rule that a line states: its states are trimmed and
/// hold no comma and no `->`; its symbols are neither whitespace nor comma.
pub proof fn lemma_parsed_rule(s: Seq<char>, r: Rule)
    requires
        parse_line(s) == Some(r),
    ensures
        is_trimmed(r.from),
        no_arrow(r.from),
        no_comma(r.from),
        is_trimmed(r.to),
        no_arrow(r.to),
        no_comma(r.to),
        !is_ws(r.read),
        r.read != ',',
        !is_ws(r.write),
        r.write != ',',
{
    let t = trim(s);
    let parts = split_pat(t, arrow());
    lemma_pieces(t, arrow());
    assert forall|j: int| 0 <= j < 2 implies no_arrow(#[trigger] parts[j]) by {
        assert forall|i: int| !arrow_at(parts[j], i) by {
            lemma_match_arrow(parts[j], i);
        }
    }
    let left = strip_parens(trim(parts[0]));
    let right = strip_parens(trim(parts[1]));
    lemma_side_free(parts[0]);
    lemma_side_free(parts[1]);
    lemma_comma_pieces_free(left);
    lemma_comma_pieces_free(right);
    let lf = split_pat(left, comma());
    let rf = split_pat(right, comma());
    assert(no_arrow(lf[0]) && no_arrow(lf[1]));
    assert(no_arrow(rf[0]) && no_arrow(rf[1]));
    lemma_field_free(lf[0]);
    lemma_field_free(lf[1]);
    lemma_field_free(rf[0]);
    lemma_field_free(rf[1]);
    assert(trim(lf[1])[0] != ',');
    assert(trim(rf[1])[0] != ',');
}

/// The left side of a rule's text form, `(from , read) `, read back.
proof fn lemma_left_back(f: Seq<char>, rd: char)
    requires
        is_trimmed(f),
        no_comma(f),
        f.len() > 0 ==> !is_paren(f[0]),
        !is_ws(rd),
        rd != ',',
        !is_paren(rd),
    ensures
        ({
            let side = strip_parens(
                trim(seq!['('] + f + seq![' ', ',', ' ', rd, ')', ' ']),
            );
            let lf = split_pat(side, comma());
            lf.len() == 2 && trim(lf[0]) == f && first_symbol(lf[1]) == Some(rd)
        }),
{
    let e = Seq::<char>::empty();
    let ll = f + seq![' ', ',', ' ', rd];
    let l1 = seq!['('] + ll + seq![')'];
    assert(e + l1 + seq![' '] =~= seq!['('] + f + seq![' ', ',', ' ', rd, ')', ' ']);
    lemma_strip_around(e, l1, seq![' '], false);
    assert(ll.len() > 0 ==> !in_class(ll[0], true) && !in_class(ll.last(), true));
    lemma_strip_around(seq!['('], ll, seq![')'], true);
    let fl = f.len() as int;
    assert forall|i: int| 0 <= i < fl + 1 implies ll[i] != ',' by {
        if i < fl {
            assert(ll[i] == f[i]);
        }
    }
    lemma_comma_first(ll, 0, ll.len() as int, fl + 1);
    lemma_comma_none(ll, fl + 2, ll.len() as int);
    assert(ll.subrange(0, ll.len() as int) =~= ll);
    assert(ll.subrange(0, fl + 1) =~= f + seq![' ']);
    assert(ll.subrange(fl + 2, ll.len() as int) =~= seq![' ', rd]);
    let lf = split_pat(ll, comma());
    assert(lf =~= seq![f + seq![' '], seq![' ', rd]]);
    assert(e + f + seq![' '] =~= f + seq![' ']);
    lemma_strip_around(e, f, seq![' '], false);
    assert(seq![' '] + seq![rd] + e =~= seq![' ', rd]);
    lemma_strip_around(seq![' '], seq![rd], e, false);
}

/// The right side of a rule's text form, ` (to , write , dir)`, read back.
proof fn lemma_right_back(to: Seq<char>, wr: char, d: char)
    requires
        is_trimmed(to),
        no_comma(to),
        to.len() > 0 ==> !is_paren(to[0]),
        !is_ws(wr),
        wr != ',',
        d == '<' || d == '>',
    ensures
        ({
            let side = strip_parens(
                trim(seq![' ', '('] + to + seq![' ', ',', ' ', wr, ' ', ',', ' ', d, ')']),
            );
            let rf = split_pat(side, comma());
            rf.len() == 3 && trim(rf[0]) == to && first_symbol(rf[1]) == Some(wr)
                && first_symbol(rf[2]) == Some(d)
        }),
{
    let e = Seq::<char>::empty();
    let rr = to + seq![' ', ',', ' ', wr, ' ', ',', ' ', d];
    let r1 = seq!['('] + rr + seq![')'];
    assert(seq![' '] + r1 + e =~= seq![' ', '('] + to + seq![
        ' ',
        ',',
        ' ',
        wr,
        ' ',
        ',',
        ' ',
        d,
        ')',
    ]);
    lemma_strip_around(seq![' '], r1, e, false);
    assert(rr.len() > 0 ==> !in_class(rr[0], true) && !in_class(rr.last(), true));
    lemma_strip_around(seq!['('], rr, seq![')'], true);
    let tl = to.len() as int;
    assert forall|i: int| 0 <= i < tl + 1 implies rr[i] != ',' by {
        if i < tl {
            assert(rr[i] == to[i]);
        }
    }
    lemma_comma_first(rr, 0, rr.len() as int, tl + 1);
    lemma_comma_first(rr, tl + 2, rr.len() as int, tl + 5);
    lemma_comma_none(rr, tl + 6, rr.len() as int);
    assert(rr.subrange(0, rr.len() as int) =~= rr);
    assert(rr.subrange(0, tl + 1) =~= to + seq![' ']);
    assert(rr.subrange(tl + 2, tl + 5) =~= seq![' ', wr, ' ']);
    assert(rr.subrange(tl + 6, rr.len() as int) =~= seq![' ', d]);
    let rf = split_pat(rr, comma());
    assert(rf =~= seq![to + seq![' '], seq![' ', wr, ' '], seq![' ', d]]);
    assert(e + to + seq![' '] =~= to + seq![' ']);
    lemma_strip_around(e, to, seq![' '], false);
    assert(seq![' '] + seq![wr] + seq![' '] =~= seq![' ', wr, ' ']);
    lemma_strip_around(seq![' '], seq![wr], seq![' '], false);
    assert(seq![' '] + seq![d] + e =~= seq![' ', d]);
    lemma_strip_around(seq![' '], seq![d], e, false);
}

/// A rule's text form splits at its one arrow into its two sides.
proof fn lemma_arrow_back(r: Rule)
    requires
        no_arrow(r.from),
        no_arrow(r.to),
    ensures
        trim(canonical(r)) == canonical(r),
        split_pat(canonical(r), arrow()) == seq![
            seq!['('] + r.from + seq![' ', ',', ' ', r.read, ')', ' '],
            seq![' ', '('] + r.to + seq![' ', ',', ' ', r.write, ' ', ',', ' ', dir_char(r.dir), ')'],
        ],
{
    let c = canonical(r);
    let e = Seq::<char>::empty();
    let tail_l = seq![' ', ',', ' ', r.read, ')', ' '];
    let tail_r = seq![' ', ',', ' ', r.write, ' ', ',', ' ', dir_char(r.dir), ')'];
    let l = seq!['('] + r.from + tail_l;
    let rs = seq![' ', '('] + r.to + tail_r;
    assert(c =~= l + arrow() + rs);
    assert(e + c + e =~= c);
    lemma_strip_around(e, c, e, false);
    assert(no_arrow(tail_l)) by {
        assert forall|i: int| !arrow_at(tail_l, i) by {}
    }
    assert(no_arrow(seq!['('])) by {
        assert forall|i: int| !arrow_at(seq!['('], i) by {}
    }
    lemma_concat_no_arrow(seq!['('], r.from);
    lemma_concat_no_arrow(seq!['('] + r.from, tail_l);
    assert(no_arrow(tail_r)) by {
        assert forall|i: int| !arrow_at(tail_r, i) by {}
    }
    assert(no_arrow(seq![' ', '('])) by {
        assert forall|i: int| !arrow_at(seq![' ', '('], i) by {}
    }
    lemma_concat_no_arrow(seq![' ', '('], r.to);
    lemma_concat_no_arrow(seq![' ', '('] + r.to, tail_r);
    let k = l.len() as int;
    assert(arrow_at(c, k));
    assert forall|i: int| 0 <= i < k implies !arrow_at(c, i) by {
        if i + 1 < k {
            assert(c[i] == l[i] && c[i + 1] == l[i + 1]);
            assert(!arrow_at(l, i));
        }
    }
    lemma_arrow_first(c, 0, c.len() as int, k);
    assert(c.subrange(0, c.len() as int) =~= c);
    assert(c.subrange(0, k) =~= l);
    assert(c.subrange(k + 2, c.len() as int) =~= rs);
    lemma_arrow_none(rs, 0, rs.len() as int);
    assert(rs.subrange(0, rs.len() as int) =~= rs);
    assert(split_pat(c, arrow()) =~= seq![l, rs]);
}

/// Parsing the text form of a rule that a line states gives that rule back,
/// unless a state starts with a parenthesis or the read symbol is one: the
/// stripping of parentheses would then eat into the field.
pub proof fn law_canonical_round_trip(s: Seq<char>, r: Rule)
    requires
        parse_line(s) == Some(r),
        r.from.len() > 0 ==> !is_paren(r.from[0]),
        r.to.len() > 0 ==> !is_paren(r.to[0]),
        !is_paren(r.read),
    ensures
        parse_line(canonical(r)) == Some(r),
{
    lemma_parsed_rule(s, r);
    lemma_arrow_back(r);
    lemma_left_back(r.from, r.read);
    lemma_right_back(r.to, r.write, dir_char(r.dir));
    assert(dir_of(dir_char(r.dir)) == Some(r.dir));
}

/// A line that is empty once trimmed.
pub open spec fn is_blank(s: Seq<char>) -> bool {
    trim(s).len() == 0
}

fn trimmed(cs: &Vec<char>, lo: usize, hi: usize) -> (r: (usize, usize))
    requires
        lo <= hi <= cs@.len(),
    ensures
        lo <= r.0 <= r.1 <= hi,
        cs@.subrange(r.0 as int, r.1 as int) == trim(cs@.subrange(lo as int, hi as int)),
{
    strip_range(cs, lo, hi, false)
}

/// The bounds of a side of the arrow, trimmed and stripped of parentheses.
fn side(cs: &Vec<char>, lo: usize, hi: usize) -> (r: (usize, usize))
    requires
        lo <= hi <= cs@.len(),
    ensures
        lo <= r.0 <= r.1 <= hi,
        cs@.subrange(r.0 as int, r.1 as int) == strip_parens(
            trim(cs@.subrange(lo as int, hi as int)),
        ),
{
    let (a, b) = trimmed(cs, lo, hi);
    let r = strip_range(cs, a, b, true);
    r
}

fn symbol_of(cs: &Vec<char>, lo: usize, hi: usize) -> (r: Option<char>)
    requires
        lo <= hi <= cs@.len(),
    ensures
        r == first_symbol(cs@.subrange(lo as int, hi as int)),
{
    let (a, b) = trimmed(cs, lo, hi);
    if a < b {
        Some(cs[a])
    } else {
        None
    }
}

fn parse_sides_exec(line: &str, cs: &Vec<char>, la: usize, lb: usize, ra: usize, rb: usize) -> (r:
    Option<Transition>)
    requires
        cs@ == line@,
        la <= lb <= cs@.len(),
        ra <= rb <= cs@.len(),
    ensures
        match r {
            Some(t) => parse_sides(
                cs@.subrange(la as int, lb as int),
                cs@.subrange(ra as int, rb as int),
            ) == Some(t@),
            None => parse_sides(
                cs@.subrange(la as int, lb as int),
                cs@.subrange(ra as int, rb as int),
            ) is None,
        },
{
    let ghost w = cs@;
    let ghost left = w.subrange(la as int, lb as int);
    let ghost right = w.subrange(ra as int, rb as int);
    // left side: exactly one comma
    let l1 = match find_char(cs, la, lb, ',') {
        Some(k) => k,
        None => {
            proof {
                lemma_comma_none(w, la as int, lb as int);
            }
            return None;
        },
    };
    proof {
        lemma_comma_first(w, la as int, lb as int, l1 as int);
    }
    match find_char(cs, l1 + 1, lb, ',') {
        Some(k) => {
            proof {
                lemma_comma_first(w, l1 + 1, lb as int, k as int);
                lemma_split_nonempty(w.subrange(k + 1, lb as int), comma());
            }
            return None;
        },
        None => {
            proof {
                lemma_comma_none(w, l1 + 1, lb as int);
            }
        },
    }
    // right side: exactly two commas
    let r1 = match find_char(cs, ra, rb, ',') {
        Some(k) => k,
        None => {
            proof {
                lemma_comma_none(w, ra as int, rb as int);
            }
            return None;
        },
    };
    proof {
        lemma_comma_first(w, ra as int, rb as int, r1 as int);
    }
    let r2 = match find_char(cs, r1 + 1, rb, ',') {
        Some(k) => k,
        None => {
            proof {
                lemma_comma_none(w, r1 + 1, rb as int);
            }
            return None;
        },
    };
    proof {
        lemma_comma_first(w, r1 + 1, rb as int, r2 as int);
    }
    match find_char(cs, r2 + 1, rb, ',') {
        Some(k) => {
            proof {
                lemma_comma_first(w, r2 + 1, rb as int, k as int);
                lemma_split_nonempty(w.subrange(k + 1, rb as int), comma());
            }
            return None;
        },
        None => {
            proof {
                lemma_comma_none(w, r2 + 1, rb as int);
            }
        },
    }
    let ghost lf = split_pat(left, comma());
    let ghost rf = split_pat(right, comma());
    assert(lf.len() == 2 && lf[0] == w.subrange(la as int, l1 as int) && lf[1] == w.subrange(
        l1 + 1,
        lb as int,
    ));
    assert(rf.len() == 3 && rf[0] == w.subrange(ra as int, r1 as int) && rf[1] == w.subrange(
        r1 + 1,
        r2 as int,
    ) && rf[2] == w.subrange(r2 + 1, rb as int));
    let read = match symbol_of(cs, l1 + 1, lb) {
        Some(c) => c,
        None => {
            return None;
        },
    };
    let write = match symbol_of(cs, r1 + 1, r2) {
        Some(c) => c,
        None => {
            return None;
        },
    };
    let d = match symbol_of(cs, r2 + 1, rb) {
        Some(c) => c,
        None => {
            return None;
        },
    };
    let dir = match Direction::from_char(d) {
        Some(dir) => dir,
        None => {
            return None;
        },
    };
    let (fa, fb) = trimmed(cs, la, l1);
    let (ta, tb) = trimmed(cs, ra, r1);
    Some(Transition { from: string_of(line, fa, fb), read, to: string_of(line, ta, tb), write, dir })
}

/// Reads one rule line. Whitespace around the tokens does not matter; a
/// symbol field longer than one character gives its first character; a
/// direction other than `<` or `>` makes the line unparseable, as does a
/// blank line, a line without exactly one `->`, or sides without two and
/// three comma-separated fields.
pub fn parse_transition(line: &str) -> (r: Option<Transition>)
    ensures
        match r {
            Some(t) => parse_line(line@) == Some(t@),
            None => parse_line(line@) is None,
        },
{
    let cs = chars_of(line);
    let ghost w = cs@;
    let n = cs.len();
    let (a, b) = trimmed(&cs, 0, n);
    assert(w.subrange(0, n as int) =~= w);
    let k = match find_arrow(&cs, a, b) {
        Some(k) => k,
        None => {
            proof {
                lemma_arrow_none(w, a as int, b as int);
            }
            return None;
        },
    };
    proof {
        lemma_arrow_first(w, a as int, b as int, k as int);
    }
    match find_arrow(&cs, k + 2, b) {
        Some(j) => {
            proof {
                lemma_arrow_first(w, k + 2, b as int, j as int);
                lemma_split_nonempty(w.subrange(j + 2, b as int), arrow());
            }
            return None;
        },
        None => {
            proof {
                lemma_arrow_none(w, k + 2, b as int);
            }
        },
    }
    let (la, lb) = side(&cs, a, k);
    let (ra, rb) = side(&cs, k + 2, b);
    parse_sides_exec(line, &cs, la, lb, ra, rb)
}

/// Whether a line is blank once trimmed.
pub fn is_blank_line(line: &str) -> (r: bool)
    ensures
        r == is_blank(line@),
{
    let cs = chars_of(line);
    let n = cs.len();
    let (a, b) = trimmed(&cs, 0, n);
    assert(cs@.subrange(0, n as int) =~= cs@);
    a == b
}

} // verus!
