use vstd::prelude::*;
use crate::sat_solver::{SatSolver, Clause3, can_add, added_vars, added_total, encoding, stored_clauses};
use crate::util::{lit_abs, var_of};

verus! {

/// `c` is white space as Unicode defines it (the `White_Space` property).
pub open spec fn is_ws(c: char) -> bool {
    let u = c as u32;
    ||| 9 <= u <= 13
    ||| u == 32
    ||| u == 0x85
    ||| u == 0xA0
    ||| u == 0x1680
    ||| 0x2000 <= u <= 0x200A
    ||| u == 0x2028
    ||| u == 0x2029
    ||| u == 0x202F
    ||| u == 0x205F
    ||| u == 0x3000
}

/// `c` separates pieces: white space for tokens, a line feed for lines.
pub open spec fn is_sep(c: char, on_ws: bool) -> bool {
    if on_ws { is_ws(c) } else { c == '\n' }
}

/// The pieces between separators, in order: `n` separators give `n + 1` pieces, some
/// possibly empty.
pub open spec fn pieces(s: Seq<char>, on_ws: bool) -> Seq<Seq<char>>
    decreases s.len(),
{
    if s.len() == 0 {
        seq![Seq::<char>::empty()]
    } else {
        let prev = pieces(s.drop_last(), on_ws);
        if is_sep(s.last(), on_ws) {
            prev.push(Seq::<char>::empty())
        } else {
            prev.update(prev.len() - 1, prev.last().push(s.last()))
        }
    }
}

/// The first character of `s` that is not white space.
pub open spec fn first_non_ws(s: Seq<char>) -> Option<char>
    decreases s.len(),
{
    if s.len() == 0 {
        None
    } else if !is_ws(s[0]) {
        Some(s[0])
    } else {
        first_non_ws(s.drop_first())
    }
}

/// Why a decimal number could not be read.
#[derive(Clone, Copy, PartialEq, Eq, Debug)]
pub enum IntError {
    /// The text is empty.
    Empty,
    /// A character is not a digit (or the text is only a sign).
    InvalidDigit,
    /// The number is too large for its type.
    PosOverflow,
}

pub open spec fn is_digit(c: char) -> bool {
    48 <= (c as u32) <= 57
}

pub open spec fn digit_of(c: char) -> int {
    (c as u32) - 48
}

/// Reads the decimal digits of `s` from position `i` on, `acc` being the value so far, left
/// to right: the first character that is not a digit, or the first digit that takes the
/// value past `max`, ends the reading with that error.
pub open spec fn dec_from(s: Seq<char>, i: int, acc: int, max: int) -> Result<int, IntError>
    decreases s.len() - i,
{
    if i >= s.len() {
        Ok(acc)
    } else if !is_digit(s[i]) {
        Err(IntError::InvalidDigit)
    } else if acc * 10 + digit_of(s[i]) > max {
        Err(IntError::PosOverflow)
    } else {
        dec_from(s, i + 1, acc * 10 + digit_of(s[i]), max)
    }
}

/// An unsigned decimal number: an optional `+`, then at least one digit.
pub open spec fn parse_usize_spec(s: Seq<char>) -> Result<usize, IntError> {
    if s.len() == 0 {
        Err(IntError::Empty)
    } else {
        let start: int = if s[0] == '+' { 1 } else { 0 };
        if start == s.len() {
            Err(IntError::InvalidDigit)
        } else {
            match dec_from(s, start, 0, usize::MAX as int) {
                Ok(v) => Ok(v as usize),
                Err(e) => Err(e),
            }
        }
    }
}

/// A signed decimal number: an optional `+` or `-`, then at least one digit, within `i32`.
pub open spec fn parse_i32_spec(s: Seq<char>) -> Option<i32> {
    if s.len() == 0 {
        None
    } else {
        let neg = s[0] == '-';
        let start: int = if s[0] == '-' || s[0] == '+' { 1 } else { 0 };
        let max: int = if neg { 0x8000_0000 } else { 0x7fff_ffff };
        if start == s.len() {
            None
        } else {
            match dec_from(s, start, 0, max) {
                Ok(v) => Some((if neg { -v } else { v }) as i32),
                Err(_) => None,
            }
        }
    }
}

/// The decimal digit character of `d` (`0 <= d < 10`).
pub open spec fn digit_char(d: int) -> char {
    if d == 0 { '0' } else if d == 1 { '1' } else if d == 2 { '2' } else if d == 3 { '3' }
    else if d == 4 { '4' } else if d == 5 { '5' } else if d == 6 { '6' } else if d == 7 { '7' }
    else if d == 8 { '8' } else { '9' }
}

/// The decimal digits of `m`, most significant first, without leading zeros.
pub open spec fn decimal(m: nat) -> Seq<char>
    decreases m,
{
    if m < 10 { seq![digit_char(m as int)] } else { decimal(m / 10).push(digit_char(m as int % 10)) }
}

/// How `n` is written in decimal: a `-` before the digits of a negative number.
pub open spec fn render_i32(n: i32) -> Seq<char> {
    if n < 0 { seq!['-'] + decimal((-(n as int)) as nat) } else { decimal(n as nat) }
}

proof fn lemma_digit_char(d: int)
    requires
        0 <= d < 10,
    ensures
        is_digit(digit_char(d)),
        digit_of(digit_char(d)) == d,
        digit_char(d) != '-',
        digit_char(d) != '+',
{
}

/// Reading one more digit continues the reading of the digits before it.
proof fn lemma_dec_push(s: Seq<char>, c: char, i: int, acc: int, max: int)
    requires
        0 <= i <= s.len(),
        is_digit(c),
    ensures
        dec_from(s.push(c), i, acc, max) == (match dec_from(s, i, acc, max) {
            Ok(v) => if v * 10 + digit_of(c) > max { Err(IntError::PosOverflow) } else { Ok(v * 10 + digit_of(c)) },
            Err(e) => Err(e),
        }),
    decreases s.len() - i,
{
    let t = s.push(c);
    if i == s.len() {
        assert(t[i] == c);
        if acc * 10 + digit_of(c) <= max {
            assert(dec_from(t, i + 1, acc * 10 + digit_of(c), max) == Ok::<int, IntError>(acc * 10 + digit_of(c)));
        }
    } else {
        assert(t[i] == s[i]);
        if is_digit(s[i]) && acc * 10 + digit_of(s[i]) <= max {
            lemma_dec_push(s, c, i + 1, acc * 10 + digit_of(s[i]), max);
        }
    }
}

/// The digits of `m` read back as `m`, when `m` does not pass `max`.
proof fn lemma_dec_decimal(m: nat, max: int)
    requires
        m <= max,
    ensures
        dec_from(decimal(m), 0, 0, max) == Ok::<int, IntError>(m as int),
        decimal(m).len() >= 1,
        forall|i: int| 0 <= i < decimal(m).len() ==> #[trigger] is_digit(decimal(m)[i]),
    decreases m,
{
    if m < 10 {
        lemma_digit_char(m as int);
        let s = decimal(m);
        assert(s[0] == digit_char(m as int));
        assert(dec_from(s, 1, m as int, max) == Ok::<int, IntError>(m as int));
    } else {
        let q = (m / 10) as nat;
        let d = m as int % 10;
        lemma_dec_decimal(q, max);
        lemma_digit_char(d);
        lemma_dec_push(decimal(q), digit_char(d), 0, 0, max);
        assert(q * 10 + d == m);
        assert forall|i: int| 0 <= i < decimal(m).len() implies #[trigger] is_digit(decimal(m)[i]) by {
            if i < decimal(q).len() {
                assert(decimal(m)[i] == decimal(q)[i]);
            }
        }
    }
}

/// Reading after a prefix is reading the rest.
proof fn lemma_dec_skip(p: Seq<char>, t: Seq<char>, i: int, acc: int, max: int)
    requires
        0 <= i <= t.len(),
    ensures
        dec_from(p + t, p.len() + i, acc, max) == dec_from(t, i, acc, max),
    decreases t.len() - i,
{
    if i < t.len() {
        assert((p + t)[p.len() + i] == t[i]);
        lemma_dec_skip(p, t, i + 1, acc * 10 + digit_of(t[i]), max);
    }
}

/// Every `i32`, written in decimal, reads back as itself.
pub proof fn lemma_parse_i32_decimal(n: i32)
    ensures
        parse_i32_spec(render_i32(n)) == Some(n),
{
    if n < 0 {
        let m = (-(n as int)) as nat;
        lemma_dec_decimal(m, 0x8000_0000);
        let s = render_i32(n);
        assert(s[0] == '-');
        lemma_dec_skip(seq!['-'], decimal(m), 0, 0, 0x8000_0000);
        assert(s.len() >= 2);
    } else {
        let m = n as nat;
        lemma_dec_decimal(m, 0x7fff_ffff);
        let s = render_i32(n);
        assert(is_digit(s[0]));
        assert(s[0] != '-' && s[0] != '+');
    }
}

/// A message the reading of a problem produces, in the order produced.
#[derive(Clone, Copy, PartialEq, Eq, Debug)]
pub enum ParseNote {
    /// Line `i` is a comment.
    Comment(usize),
    /// No problem line: the text holds only comments, or the problem line ends early.
    EmptyFile,
    /// The problem line does not start with `p`.
    WrongFirstLine,
    /// The second token of the problem line is not `cnf`.
    WrongFirstLine2,
    /// The problem line has a single token.
    NotEnoughInFirstLine,
    /// The variable count cannot be read.
    BadVarCount(IntError),
    /// The clause count cannot be read.
    BadClauseCount(IntError),
    /// The problem line names this many variables and clauses.
    Header(usize, usize),
    /// A literal names a variable beyond the announced count (this variable number).
    VarTooHigh(i32),
    /// The text ends before the announced number of clauses.
    NotEnoughClauses,
}

/// What reading a problem gives: the notes, the variable count and the clauses (an empty
/// problem where the text is refused), or a failure after the given notes.
pub enum ParseOutcome {
    Failed(Seq<ParseNote>),
    Finished(Seq<ParseNote>, usize, Seq<Seq<i32>>),
}

/// Where the clause lines stand while being read.
pub struct ReadState {
    pub notes: Seq<ParseNote>,
    pub count: nat,
    pub cur: Seq<i32>,
    pub clauses: Seq<Seq<i32>>,
    pub vars: int,
    pub stored: int,
}

/// The index of the first line, from `j` on, whose first non-blank character is not `c`.
pub open spec fn comment_end(lines: Seq<Seq<char>>, j: int) -> int
    decreases lines.len() - j,
{
    if j >= lines.len() {
        lines.len() as int
    } else if first_non_ws(lines[j]) == Some('c') {
        comment_end(lines, j + 1)
    } else {
        j
    }
}

/// Reads the tokens of a clause line from token `t` on: a number that is not `0` extends the
/// clause being read, `0` ends it and stores it, and anything else is skipped; a literal past
/// `vc` is noted. The flag is set where reading cannot go on (a literal of `i32::MIN`, or a
/// clause that cannot be stored).
pub open spec fn read_tokens(toks: Seq<Seq<char>>, t: int, vc: usize, st: ReadState) -> (ReadState, bool)
    decreases toks.len() - t,
{
    if t >= toks.len() {
        (st, false)
    } else {
        match parse_i32_spec(toks[t]) {
            None => read_tokens(toks, t + 1, vc, st),
            Some(z) => {
                if z == i32::MIN {
                    (st, true)
                } else {
                    let notes = if var_of(z) > vc { st.notes.push(ParseNote::VarTooHigh(var_of(z) as i32)) } else { st.notes };
                    if z != 0 {
                        read_tokens(toks, t + 1, vc, ReadState {
                            notes: notes,
                            count: st.count,
                            cur: st.cur.push(z),
                            clauses: st.clauses,
                            vars: st.vars,
                            stored: st.stored,
                        })
                    } else if !can_add(st.cur, st.vars, st.stored) {
                        (ReadState {
                            notes: notes,
                            count: st.count,
                            cur: st.cur,
                            clauses: st.clauses,
                            vars: st.vars,
                            stored: st.stored,
                        }, true)
                    } else {
                        read_tokens(toks, t + 1, vc, ReadState {
                            notes: notes,
                            count: st.count + 1,
                            cur: Seq::empty(),
                            clauses: st.clauses.push(st.cur),
                            vars: st.vars + added_vars(st.cur),
                            stored: st.stored + stored_clauses(st.cur, st.vars).len(),
                        })
                    }
                }
            }
        }
    }
}

/// Reads clause lines from line `j` on until `cc` clauses are read.
pub open spec fn read_lines(lines: Seq<Seq<char>>, j: int, vc: usize, cc: usize, st: ReadState) -> ParseOutcome
    decreases lines.len() - j,
{
    if st.count >= cc {
        ParseOutcome::Finished(st.notes, vc, st.clauses)
    } else if j >= lines.len() {
        ParseOutcome::Finished(st.notes.push(ParseNote::NotEnoughClauses), 0, Seq::empty())
    } else {
        let (st2, failed) = read_tokens(pieces(lines[j], true), 0, vc, st);
        if failed {
            ParseOutcome::Failed(st2.notes)
        } else {
            read_lines(lines, j + 1, vc, cc, st2)
        }
    }
}

/// The problem a text in DIMACS CNF form describes: comment lines (first non-blank character
/// `c`), then the problem line `p cnf <variables> <clauses>`, then clauses as literals each
/// ended by `0`. Reading fails where a line before the problem line is blank.
pub open spec fn parse_spec(text: Seq<char>) -> ParseOutcome {
    let lines = pieces(text, false);
    let k = comment_end(lines, 0);
    let notes = Seq::new(k as nat, |i: int| ParseNote::Comment(i as usize));
    if k >= lines.len() {
        ParseOutcome::Finished(notes.push(ParseNote::EmptyFile), 0, Seq::empty())
    } else if first_non_ws(lines[k]) is None {
        ParseOutcome::Failed(notes)
    } else {
        let h = pieces(lines[k], true);
        if h[0] != seq!['p'] {
            ParseOutcome::Finished(notes.push(ParseNote::WrongFirstLine), 0, Seq::empty())
        } else if h.len() < 2 {
            ParseOutcome::Finished(notes.push(ParseNote::NotEnoughInFirstLine), 0, Seq::empty())
        } else if h[1] != seq!['c', 'n', 'f'] {
            ParseOutcome::Finished(notes.push(ParseNote::WrongFirstLine2), 0, Seq::empty())
        } else if h.len() < 3 {
            ParseOutcome::Finished(notes.push(ParseNote::EmptyFile), 0, Seq::empty())
        } else {
            match parse_usize_spec(h[2]) {
                Err(e) => ParseOutcome::Finished(notes.push(ParseNote::BadVarCount(e)), 0, Seq::empty()),
                Ok(vc) => {
                    if h.len() < 4 {
                        ParseOutcome::Finished(notes.push(ParseNote::EmptyFile), 0, Seq::empty())
                    } else {
                        match parse_usize_spec(h[3]) {
                            Err(e) => ParseOutcome::Finished(notes.push(ParseNote::BadClauseCount(e)), 0, Seq::empty()),
                            Ok(cc) => read_lines(lines, k + 1, vc, cc, ReadState {
                                notes: notes.push(ParseNote::Header(vc, cc)),
                                count: 0,
                                cur: Seq::empty(),
                                clauses: Seq::empty(),
                                vars: vc as int,
                                stored: 0,
                            }),
                        }
                    }
                }
            }
        }
    }
}

/// The solver holds exactly the problem of `vc` variables and clauses `cls`, added in order
/// to a new solver.
pub open spec fn holds_problem(s: SatSolver, vc: usize, cls: Seq<Seq<i32>>) -> bool {
    &&& s.wf()
    &&& s@.inputs == cls
    &&& s@.num_vars == vc + added_total(cls)
    &&& s@.base_vars == vc
    &&& s@.working == Seq::<Clause3>::empty()
    &&& s@.graph@ == Map::<int, (i32, i32)>::empty()
    &&& s@.graph.room() == vc
    &&& s@.graph.node_count() == 0
    &&& s@.graph.free_slots() == Seq::<usize>::empty()
    &&& s@.assigns == Seq::new(s@.num_vars, |i: int| 0i32)
    &&& s@.status == (if exists|i: int| 0 <= i < cls.len() && #[trigger] cls[i].len() == 0 { -1i32 } else { 0i32 })
    &&& s@.clauses.len() == encoding(cls, vc as int).len()
    &&& forall|c: int| 0 <= c < s@.clauses.len() ==> (#[trigger] s@.clauses[c]).literals@ == encoding(cls, vc as int)[c]
        && !s@.clauses[c].sat
}

/// The reading state that the clause reader's variables stand for.
pub open spec fn state_of(notes: Seq<ParseNote>, cnt: nat, cur: Seq<i32>, s: SatSolver) -> ReadState {
    ReadState {
        notes: notes,
        count: cnt,
        cur: cur,
        clauses: s@.inputs,
        vars: s@.num_vars as int,
        stored: s@.clauses.len() as int,
    }
}

proof fn lemma_pieces_nonempty(s: Seq<char>, on_ws: bool)
    ensures
        pieces(s, on_ws).len() >= 1,
    decreases s.len(),
{
    if s.len() > 0 {
        lemma_pieces_nonempty(s.drop_last(), on_ws);
    }
}

/// Splitting at a line feed: the lines of `a`, a line feed and `b` are the lines of `a`
/// followed by the lines of `b`.
proof fn lemma_lines_concat(a: Seq<char>, b: Seq<char>)
    ensures
        pieces(a + seq!['\n'] + b, false) == pieces(a, false) + pieces(b, false),
    decreases b.len(),
{
    let t = a + seq!['\n'] + b;
    if b.len() == 0 {
        assert(t.drop_last() =~= a);
        assert(pieces(a, false) + pieces(b, false) =~= pieces(a, false).push(Seq::<char>::empty()));
    } else {
        let b1 = b.drop_last();
        assert(t.drop_last() =~= a + seq!['\n'] + b1);
        lemma_lines_concat(a, b1);
        lemma_pieces_nonempty(b1, false);
        let pa = pieces(a, false);
        let pb = pieces(b1, false);
        if b.last() == '\n' {
            assert(pa + pb.push(Seq::<char>::empty()) =~= (pa + pb).push(Seq::<char>::empty()));
        } else {
            assert((pa + pb).update((pa + pb).len() - 1, (pa + pb).last().push(b.last()))
                =~= pa + pb.update(pb.len() - 1, pb.last().push(b.last())));
        }
    }
}

/// Text without a line feed is a single line.
proof fn lemma_one_line(p: Seq<char>)
    requires
        forall|i: int| 0 <= i < p.len() ==> p[i] != '\n',
    ensures
        pieces(p, false) == seq![p],
    decreases p.len(),
{
    if p.len() > 0 {
        let q = p.drop_last();
        assert forall|i: int| 0 <= i < q.len() implies q[i] != '\n' by {
            assert(q[i] == p[i]);
        }
        lemma_one_line(q);
        assert(p.last() != '\n');
        assert(!is_sep(p.last(), false));
        assert(q.push(p.last()) =~= p);
        assert(seq![q].update(0, q.push(p.last())) =~= seq![p]);
        assert(pieces(q, false).last() == q);
        assert(pieces(p, false) == pieces(q, false).update(0, q.push(p.last())));
    } else {
        assert(p =~= Seq::<char>::empty());
    }
}

proof fn lemma_comment_end_range(lines: Seq<Seq<char>>, j: int)
    requires
        0 <= j <= lines.len(),
    ensures
        j <= comment_end(lines, j) <= lines.len(),
    decreases lines.len() - j,
{
    if j < lines.len() {
        lemma_comment_end_range(lines, j + 1);
    }
}

proof fn lemma_comment_end_shift(l0: Seq<char>, lines: Seq<Seq<char>>, j: int)
    requires
        0 <= j,
    ensures
        comment_end(seq![l0] + lines, j + 1) == comment_end(lines, j) + 1,
    decreases lines.len() - j,
{
    let ls = seq![l0] + lines;
    if j < lines.len() {
        assert(ls[j + 1] == lines[j]);
        lemma_comment_end_shift(l0, lines, j + 1);
    }
}

proof fn lemma_read_lines_shift(l0: Seq<char>, lines: Seq<Seq<char>>, j: int, vc: usize, cc: usize, st: ReadState)
    requires
        0 <= j,
    ensures
        read_lines(seq![l0] + lines, j + 1, vc, cc, st) == read_lines(lines, j, vc, cc, st),
    decreases lines.len() - j,
{
    let ls = seq![l0] + lines;
    if st.count < cc && j < lines.len() {
        assert(ls[j + 1] == lines[j]);
        let (st2, failed) = read_tokens(pieces(lines[j], true), 0, vc, st);
        if !failed {
            lemma_read_lines_shift(l0, lines, j + 1, vc, cc, st2);
        }
    }
}

/// Two reading states that differ at most in their notes.
pub open spec fn same_but_notes(a: ReadState, b: ReadState) -> bool {
    a.count == b.count && a.cur == b.cur && a.clauses == b.clauses && a.vars == b.vars && a.stored == b.stored
}

/// Two outcomes that differ at most in their notes.
pub open spec fn same_problem(a: ParseOutcome, b: ParseOutcome) -> bool {
    match (a, b) {
        (ParseOutcome::Failed(_), ParseOutcome::Failed(_)) => true,
        (ParseOutcome::Finished(_, v1, c1), ParseOutcome::Finished(_, v2, c2)) => v1 == v2 && c1 == c2,
        _ => false,
    }
}

proof fn lemma_read_tokens_notes(toks: Seq<Seq<char>>, t: int, vc: usize, a: ReadState, b: ReadState)
    requires
        same_but_notes(a, b),
    ensures
        same_but_notes(read_tokens(toks, t, vc, a).0, read_tokens(toks, t, vc, b).0),
        read_tokens(toks, t, vc, a).1 == read_tokens(toks, t, vc, b).1,
    decreases toks.len() - t,
{
    if t < toks.len() {
        match parse_i32_spec(toks[t]) {
            None => lemma_read_tokens_notes(toks, t + 1, vc, a, b),
            Some(z) => {
                if z != i32::MIN {
                    let na = if var_of(z) > vc { a.notes.push(ParseNote::VarTooHigh(var_of(z) as i32)) } else { a.notes };
                    let nb = if var_of(z) > vc { b.notes.push(ParseNote::VarTooHigh(var_of(z) as i32)) } else { b.notes };
                    if z != 0 {
                        lemma_read_tokens_notes(toks, t + 1, vc,
                            ReadState { notes: na, count: a.count, cur: a.cur.push(z), clauses: a.clauses, vars: a.vars, stored: a.stored },
                            ReadState { notes: nb, count: b.count, cur: b.cur.push(z), clauses: b.clauses, vars: b.vars, stored: b.stored });
                    } else if can_add(a.cur, a.vars, a.stored) {
                        lemma_read_tokens_notes(toks, t + 1, vc,
                            ReadState { notes: na, count: a.count + 1, cur: Seq::empty(), clauses: a.clauses.push(a.cur),
                                vars: a.vars + added_vars(a.cur), stored: a.stored + stored_clauses(a.cur, a.vars).len() },
                            ReadState { notes: nb, count: b.count + 1, cur: Seq::empty(), clauses: b.clauses.push(b.cur),
                                vars: b.vars + added_vars(b.cur), stored: b.stored + stored_clauses(b.cur, b.vars).len() });
                    }
                }
            }
        }
    }
}

proof fn lemma_read_lines_notes(lines: Seq<Seq<char>>, j: int, vc: usize, cc: usize, a: ReadState, b: ReadState)
    requires
        same_but_notes(a, b),
    ensures
        same_problem(read_lines(lines, j, vc, cc, a), read_lines(lines, j, vc, cc, b)),
    decreases lines.len() - j,
{
    if a.count < cc && j < lines.len() {
        let toks = pieces(lines[j], true);
        lemma_read_tokens_notes(toks, 0, vc, a, b);
        let (a2, fa) = read_tokens(toks, 0, vc, a);
        let (b2, fb) = read_tokens(toks, 0, vc, b);
        if !fa {
            lemma_read_lines_notes(lines, j + 1, vc, cc, a2, b2);
        }
    }
}

/// The clauses `cls` written one after another.
pub open spec fn flat(cls: Seq<Seq<i32>>) -> Seq<i32>
    decreases cls.len(),
{
    if cls.len() == 0 { Seq::empty() } else { flat(cls.drop_last()) + cls.last() }
}

/// The nonzero numbers among the tokens from `t` on, in order (tokens that are not numbers,
/// and zeros, left out).
pub open spec fn token_literals(toks: Seq<Seq<char>>, t: int) -> Seq<i32>
    decreases toks.len() - t,
{
    if t < 0 || t >= toks.len() {
        Seq::empty()
    } else {
        match parse_i32_spec(toks[t]) {
            Some(z) => if z != 0 { seq![z] + token_literals(toks, t + 1) } else { token_literals(toks, t + 1) },
            None => token_literals(toks, t + 1),
        }
    }
}

/// The nonzero numbers on the lines `j..j2`, in order.
pub open spec fn line_literals(lines: Seq<Seq<char>>, j: int, j2: int) -> Seq<i32>
    decreases j2 - j,
{
    if j < 0 || j >= j2 || j >= lines.len() {
        Seq::empty()
    } else {
        token_literals(pieces(lines[j], true), 0) + line_literals(lines, j + 1, j2)
    }
}

/// Reading clause tokens loses no literal and adds none: unless the reading stops early,
/// the clauses read followed by the clause still open are the ones before followed by every
/// nonzero number among the tokens, in order; and one clause is counted per clause read.
pub proof fn lemma_read_tokens_literals(toks: Seq<Seq<char>>, t: int, vc: usize, st: ReadState)
    requires
        0 <= t,
    ensures
        !read_tokens(toks, t, vc, st).1 ==> flat(read_tokens(toks, t, vc, st).0.clauses) + read_tokens(toks, t, vc, st).0.cur
            == flat(st.clauses) + st.cur + token_literals(toks, t),
        !read_tokens(toks, t, vc, st).1 ==> read_tokens(toks, t, vc, st).0.count - st.count
            == read_tokens(toks, t, vc, st).0.clauses.len() - st.clauses.len(),
    decreases toks.len() - t,
{
    if t < toks.len() {
        match parse_i32_spec(toks[t]) {
            None => lemma_read_tokens_literals(toks, t + 1, vc, st),
            Some(z) => {
                if z != i32::MIN {
                    let notes = if var_of(z) > vc { st.notes.push(ParseNote::VarTooHigh(var_of(z) as i32)) } else { st.notes };
                    if z != 0 {
                        let st2 = ReadState { notes: notes, count: st.count, cur: st.cur.push(z), clauses: st.clauses, vars: st.vars, stored: st.stored };
                        lemma_read_tokens_literals(toks, t + 1, vc, st2);
                        assert(flat(st.clauses) + st.cur.push(z) + token_literals(toks, t + 1)
                            =~= flat(st.clauses) + st.cur + (seq![z] + token_literals(toks, t + 1)));
                    } else if can_add(st.cur, st.vars, st.stored) {
                        let st2 = ReadState { notes: notes, count: st.count + 1, cur: Seq::empty(), clauses: st.clauses.push(st.cur),
                            vars: st.vars + added_vars(st.cur), stored: st.stored + stored_clauses(st.cur, st.vars).len() };
                        lemma_read_tokens_literals(toks, t + 1, vc, st2);
                        assert(st.clauses.push(st.cur).drop_last() =~= st.clauses);
                        assert(flat(st.clauses.push(st.cur)) + Seq::<i32>::empty() =~= flat(st.clauses) + st.cur);
                    }
                }
            }
        }
    } else {
        assert(flat(st.clauses) + st.cur + token_literals(toks, t) =~= flat(st.clauses) + st.cur);
    }
}

/// Reading clause lines loses no literal and adds none: where the announced number of clauses
/// is read, the clauses read are the ones before, then the clause that was open, then the
/// nonzero numbers of the lines read, in order, up to some literals left open after the last
/// clause.
pub proof fn lemma_read_lines_literals(lines: Seq<Seq<char>>, j: int, vc: usize, cc: usize, st: ReadState)
    requires
        0 <= j <= lines.len(),
        st.count == st.clauses.len(),
    ensures
        match read_lines(lines, j, vc, cc, st) {
            ParseOutcome::Finished(_, _, cls) => cls.len() >= cc ==> exists|j2: int, rest: Seq<i32>|
                j <= j2 <= lines.len() && #[trigger] (flat(cls) + rest) == flat(st.clauses) + st.cur + #[trigger] line_literals(lines, j, j2),
            ParseOutcome::Failed(_) => true,
        },
    decreases lines.len() - j,
{
    if st.count >= cc {
        assert(line_literals(lines, j, j) =~= Seq::<i32>::empty());
        assert(flat(st.clauses) + st.cur =~= flat(st.clauses) + st.cur + line_literals(lines, j, j));
    } else if j < lines.len() {
        let toks = pieces(lines[j], true);
        lemma_read_tokens_literals(toks, 0, vc, st);
        let (st2, failed) = read_tokens(toks, 0, vc, st);
        if !failed {
            lemma_read_lines_literals(lines, j + 1, vc, cc, st2);
            match read_lines(lines, j + 1, vc, cc, st2) {
                ParseOutcome::Finished(_, _, cls) => {
                    if cls.len() >= cc {
                        let (j2, rest) = choose|j2: int, rest: Seq<i32>| j + 1 <= j2 <= lines.len()
                            && #[trigger] (flat(cls) + rest) == flat(st2.clauses) + st2.cur + #[trigger] line_literals(lines, j + 1, j2);
                        assert(line_literals(lines, j, j2) == token_literals(toks, 0) + line_literals(lines, j + 1, j2));
                        assert(flat(cls) + rest =~= flat(st.clauses) + st.cur + line_literals(lines, j, j2));
                    }
                }
                ParseOutcome::Failed(_) => {}
            }
        }
    }
}

/// A comment line put before a text changes only the notes of reading it: both readings fail,
/// or both finish with the same variable count and clauses.
pub proof fn lemma_comment_line_ignored(s: Seq<char>, text: Seq<char>)
    requires
        forall|i: int| 0 <= i < s.len() ==> s[i] != '\n',
    ensures
        same_problem(parse_spec(seq!['c'] + s + seq!['\n'] + text), parse_spec(text)),
{
    let l0 = seq!['c'] + s;
    assert forall|i: int| 0 <= i < l0.len() implies l0[i] != '\n' by {
        if i > 0 { assert(l0[i] == s[i - 1]); }
    }
    lemma_one_line(l0);
    lemma_lines_concat(l0, text);
    assert(seq!['c'] + s + seq!['\n'] + text == l0 + seq!['\n'] + text);
    let lines = pieces(text, false);
    let ls = pieces(l0 + seq!['\n'] + text, false);
    assert(ls == seq![l0] + lines);
    assert(first_non_ws(l0) == Some('c')) by {
        assert(l0[0] == 'c');
        assert(!is_ws('c'));
    }
    assert(ls[0] == l0);
    assert(comment_end(ls, 0) == comment_end(ls, 1));
    lemma_comment_end_shift(l0, lines, 0);
    lemma_comment_end_range(lines, 0);
    let k = comment_end(lines, 0);
    if k < lines.len() {
        assert(ls[k + 1] == lines[k]);
        if first_non_ws(lines[k]) is Some {
            let h = pieces(lines[k], true);
            if h[0] == seq!['p'] && h.len() >= 2 && h[1] == seq!['c', 'n', 'f'] && h.len() >= 4 {
                if let Ok(vc) = parse_usize_spec(h[2]) {
                    if let Ok(cc) = parse_usize_spec(h[3]) {
                        let st1 = ReadState {
                            notes: Seq::new(k as nat, |i: int| ParseNote::Comment(i as usize)).push(ParseNote::Header(vc, cc)),
                            count: 0, cur: Seq::empty(), clauses: Seq::empty(), vars: vc as int, stored: 0,
                        };
                        let st2 = ReadState {
                            notes: Seq::new((k + 1) as nat, |i: int| ParseNote::Comment(i as usize)).push(ParseNote::Header(vc, cc)),
                            count: 0, cur: Seq::empty(), clauses: Seq::empty(), vars: vc as int, stored: 0,
                        };
                        lemma_read_lines_shift(l0, lines, k + 1, vc, cc, st2);
                        lemma_read_lines_notes(lines, k + 1, vc, cc, st2, st1);
                    }
                }
            }
        }
    }
}

fn is_white(c: char) -> (b: bool)
    ensures
        b == is_ws(c),
{
    let u = c as u32;
    (9 <= u && u <= 13) || u == 32 || u == 0x85 || u == 0xA0 || u == 0x1680 || (0x2000 <= u && u <= 0x200A)
        || u == 0x2028 || u == 0x2029 || u == 0x202F || u == 0x205F || u == 0x3000
}

fn split_on(s: &Vec<char>, on_ws: bool) -> (r: Vec<Vec<char>>)
    ensures
        r@.map_values(|p: Vec<char>| p@) == pieces(s@, on_ws),
{
    let mut out: Vec<Vec<char>> = Vec::new();
    let mut cur: Vec<char> = Vec::new();
    let mut i: usize = 0;
    assert(s@.take(0) =~= Seq::<char>::empty());
    assert(out@.map_values(|p: Vec<char>| p@).push(cur@) =~= pieces(s@.take(0), on_ws));
    while i < s.len()
        invariant
            i <= s@.len(),
            out@.map_values(|p: Vec<char>| p@).push(cur@) == pieces(s@.take(i as int), on_ws),
        decreases s@.len() - i,
    {
        let c = s[i];
        let ghost prev = pieces(s@.take(i as int), on_ws);
        assert(s@.take(i + 1).drop_last() =~= s@.take(i as int));
        assert(s@.take(i + 1).last() == c);
        let sep = if on_ws { is_white(c) } else { c == '\n' };
        if sep {
            out.push(cur);
            cur = Vec::new();
            assert(out@.map_values(|p: Vec<char>| p@).push(cur@) =~= prev.push(Seq::<char>::empty()));
        } else {
            let ghost old_out = out@.map_values(|p: Vec<char>| p@);
            cur.push(c);
            assert(out@.map_values(|p: Vec<char>| p@).push(cur@) =~= prev.update(prev.len() - 1, prev.last().push(c)));
        }
        i = i + 1;
    }
    assert(s@.take(s@.len() as int) =~= s@);
    out.push(cur);
    assert(out@.map_values(|p: Vec<char>| p@) =~= pieces(s@, on_ws));
    out
}

/// Splits text into lines, at each line feed.
pub fn split_lines(text: &Vec<char>) -> (lines: Vec<Vec<char>>)
    ensures
        lines@.map_values(|p: Vec<char>| p@) == pieces(text@, false),
{
    split_on(text, false)
}

/// Splits a line into tokens, at each white-space character.
pub fn split_tokens(line: &Vec<char>) -> (tokens: Vec<Vec<char>>)
    ensures
        tokens@.map_values(|p: Vec<char>| p@) == pieces(line@, true),
{
    split_on(line, true)
}

/// The first character of `s` that is not white space, if any.
pub fn first_non_white(s: &Vec<char>) -> (c: Option<char>)
    ensures
        c == first_non_ws(s@),
{
    let mut i: usize = 0;
    assert(s@.skip(0) =~= s@);
    while i < s.len()
        invariant
            i <= s@.len(),
            first_non_ws(s@) == first_non_ws(s@.skip(i as int)),
        decreases s@.len() - i,
    {
        assert(s@.skip(i as int)[0] == s@[i as int]);
        if !is_white(s[i]) {
            return Some(s[i]);
        }
        assert(s@.skip(i as int).drop_first() =~= s@.skip(i + 1));
        i = i + 1;
    }
    assert(s@.skip(i as int).len() == 0);
    None
}

/// Reads an unsigned decimal number, as `usize`'s `from_str` does.
pub fn parse_usize(s: &Vec<char>) -> (r: Result<usize, IntError>)
    ensures
        r == parse_usize_spec(s@),
{
    if s.len() == 0 {
        return Err(IntError::Empty);
    }
    let start: usize = if s[0] == '+' { 1 } else { 0 };
    if start == s.len() {
        return Err(IntError::InvalidDigit);
    }
    let mut acc: u128 = 0;
    let mut i: usize = start;
    while i < s.len()
        invariant
            start <= i <= s@.len(),
            s@.len() > 0,
            start as int == (if s@[0] == '+' { 1int } else { 0int }),
            start < s@.len(),
            acc <= usize::MAX,
            dec_from(s@, start as int, 0, usize::MAX as int) == dec_from(s@, i as int, acc as int, usize::MAX as int),
        decreases s@.len() - i,
    {
        let c = s[i];
        let u = c as u32;
        assert(is_digit(c) == !(u < 48 || u > 57));
        assert(s@[i as int] == c);
        if u < 48 || u > 57 {
            return Err(IntError::InvalidDigit);
        }
        let next: u128 = acc * 10 + (u - 48) as u128;
        if next > usize::MAX as u128 {
            return Err(IntError::PosOverflow);
        }
        acc = next;
        i = i + 1;
    }
    Ok(acc as usize)
}

/// Reads a signed decimal number, as `i32`'s `from_str` does; `None` where it fails.
pub fn parse_i32(s: &Vec<char>) -> (r: Option<i32>)
    ensures
        r == parse_i32_spec(s@),
{
    if s.len() == 0 {
        return None;
    }
    let neg = s[0] == '-';
    let start: usize = if s[0] == '-' || s[0] == '+' { 1 } else { 0 };
    let max: u64 = if neg { 0x8000_0000 } else { 0x7fff_ffff };
    if start == s.len() {
        return None;
    }
    let mut acc: u64 = 0;
    let mut i: usize = start;
    while i < s.len()
        invariant
            start <= i <= s@.len(),
            s@.len() > 0,
            neg == (s@[0] == '-'),
            start as int == (if s@[0] == '-' || s@[0] == '+' { 1int } else { 0int }),
            max as int == (if neg { 0x8000_0000int } else { 0x7fff_ffffint }),
            start < s@.len(),
            acc <= max,
            max <= 0x8000_0000,
            dec_from(s@, start as int, 0, max as int) == dec_from(s@, i as int, acc as int, max as int),
        decreases s@.len() - i,
    {
        let c = s[i];
        let u = c as u32;
        if u < 48 || u > 57 {
            return None;
        }
        let next: u64 = acc * 10 + (u - 48) as u64;
        if next > max {
            return None;
        }
        acc = next;
        i = i + 1;
    }
    if neg {
        Some((0 - acc as i64) as i32)
    } else {
        Some(acc as i32)
    }
}

/// Reads a problem in DIMACS CNF form (see `parse_spec`): the notes produced, in order, and a
/// solver holding the problem; a refused text gives an empty problem with the note that says
/// why. Where reading cannot go on (a blank line before the problem line, a literal of
/// `i32::MIN`, a clause naming a variable that does not exist yet, or sizes past the integer
/// types), the result is `Err` with the notes produced until then.
pub fn try_parse_text(text: &Vec<char>) -> (r: Result<(SatSolver, Vec<ParseNote>), Vec<ParseNote>>)
    ensures
        match parse_spec(text@) {
            ParseOutcome::Failed(n) => r matches Err(notes) && notes@ == n,
            ParseOutcome::Finished(n, vc, cls) => r matches Ok((s, notes)) && notes@ == n && holds_problem(s, vc, cls),
        },
{
    let lines = split_lines(text);
    let ghost ls = pieces(text@, false);
    assert(ls == lines@.map_values(|p: Vec<char>| p@));
    let mut notes: Vec<ParseNote> = Vec::new();
    let mut k: usize = 0;
    assert(notes@ =~= Seq::new(0nat, |i: int| ParseNote::Comment(i as usize)));
    while k < lines.len()
        invariant
            ls == lines@.map_values(|p: Vec<char>| p@),
            ls == pieces(text@, false),
            k <= ls.len(),
            comment_end(ls, 0) == comment_end(ls, k as int),
            notes@ == Seq::new(k as nat, |i: int| ParseNote::Comment(i as usize)),
        ensures
            k <= ls.len(),
            comment_end(ls, 0) == k as int,
            k < ls.len() ==> first_non_ws(ls[k as int]) is Some,
            notes@ == Seq::new(k as nat, |i: int| ParseNote::Comment(i as usize)),
        decreases ls.len() - k,
    {
        assert(ls[k as int] == lines@[k as int]@);
        match first_non_white(&lines[k]) {
            None => {
                proof {
                    assert(comment_end(ls, k as int) == k as int);
                    assert(parse_spec(text@) == ParseOutcome::Failed(notes@));
                }
                return Err(notes);
            }
            Some(c) => {
                if c != 'c' {
                    break;
                }
            }
        }
        notes.push(ParseNote::Comment(k));
        assert(notes@ =~= Seq::new((k + 1) as nat, |i: int| ParseNote::Comment(i as usize)));
        k = k + 1;
    }
    if k >= lines.len() {
        notes.push(ParseNote::EmptyFile);
        let s = SatSolver::new(0);
        proof { lemma_empty_problem(s); }
        return Ok((s, notes));
    }
    let h = split_tokens(&lines[k]);
    let ghost hs = pieces(ls[k as int], true);
    proof {
        assert(ls[k as int] == lines@[k as int]@);
        lemma_pieces_nonempty(ls[k as int], true);
        assert(hs == h@.map_values(|p: Vec<char>| p@));
    }
    if !(h[0].len() == 1 && h[0][0] == 'p') {
        proof {
            assert(h@[0]@ == hs[0]);
            if hs[0] == seq!['p'] {
                assert(hs[0].len() == 1 && hs[0][0] == 'p');
            }
        }
        notes.push(ParseNote::WrongFirstLine);
        let s = SatSolver::new(0);
        proof { lemma_empty_problem(s); }
        return Ok((s, notes));
    }
    assert(hs[0] =~= seq!['p']);
    if h.len() < 2 {
        notes.push(ParseNote::NotEnoughInFirstLine);
        let s = SatSolver::new(0);
        proof { lemma_empty_problem(s); }
        return Ok((s, notes));
    }
    if !(h[1].len() == 3 && h[1][0] == 'c' && h[1][1] == 'n' && h[1][2] == 'f') {
        proof {
            assert(h@[1]@ == hs[1]);
            if hs[1] == seq!['c', 'n', 'f'] {
                assert(hs[1].len() == 3 && hs[1][0] == 'c' && hs[1][1] == 'n' && hs[1][2] == 'f');
            }
        }
        notes.push(ParseNote::WrongFirstLine2);
        let s = SatSolver::new(0);
        proof { lemma_empty_problem(s); }
        return Ok((s, notes));
    }
    assert(hs[1] =~= seq!['c', 'n', 'f']);
    if h.len() < 3 {
        notes.push(ParseNote::EmptyFile);
        let s = SatSolver::new(0);
        proof { lemma_empty_problem(s); }
        return Ok((s, notes));
    }
    assert(h@[2]@ == hs[2]);
    let vc = match parse_usize(&h[2]) {
        Err(e) => {
            notes.push(ParseNote::BadVarCount(e));
            let s = SatSolver::new(0);
            proof { lemma_empty_problem(s); }
            return Ok((s, notes));
        }
        Ok(v) => v,
    };
    if h.len() < 4 {
        notes.push(ParseNote::EmptyFile);
        let s = SatSolver::new(0);
        proof { lemma_empty_problem(s); }
        return Ok((s, notes));
    }
    assert(h@[3]@ == hs[3]);
    let cc = match parse_usize(&h[3]) {
        Err(e) => {
            notes.push(ParseNote::BadClauseCount(e));
            let s = SatSolver::new(0);
            proof { lemma_empty_problem(s); }
            return Ok((s, notes));
        }
        Ok(v) => v,
    };
    notes.push(ParseNote::Header(vc, cc));
    let mut tmp = SatSolver::new(vc);
    let mut count: usize = 0;
    let ghost mut cnt: nat = 0;
    let mut current: Vec<i32> = Vec::new();
    let mut j: usize = k + 1;
    proof {
        assert(tmp@.inputs =~= Seq::<Seq<i32>>::empty());
        assert(parse_spec(text@) == read_lines(ls, j as int, vc, cc, state_of(notes@, cnt, current@, tmp)));
        assert(tmp@.assigns =~= Seq::new(tmp@.num_vars, |i: int| 0i32));
    }
    while count < cc
        invariant
            ls == lines@.map_values(|p: Vec<char>| p@),
            k + 1 <= j <= ls.len(),
            count as int == (if cnt < cc { cnt as int } else { cc as int }),
            parse_spec(text@) == read_lines(ls, j as int, vc, cc, state_of(notes@, cnt, current@, tmp)),
            holds_problem(tmp, vc, tmp@.inputs),
        decreases ls.len() - j,
    {
        if j >= lines.len() {
            notes.push(ParseNote::NotEnoughClauses);
            let s = SatSolver::new(0);
            proof { lemma_empty_problem(s); }
            return Ok((s, notes));
        }
        let toks = split_tokens(&lines[j]);
        let ghost ts = pieces(ls[j as int], true);
        let ghost s0 = state_of(notes@, cnt, current@, tmp);
        assert(ls[j as int] == lines@[j as int]@);
        assert(ts == toks@.map_values(|p: Vec<char>| p@));
        let mut t: usize = 0;
        while t < toks.len()
            invariant
                ts == toks@.map_values(|p: Vec<char>| p@),
                ts == pieces(ls[j as int], true),
                j < ls.len(),
                s0.count < cc,
                parse_spec(text@) == read_lines(ls, j as int, vc, cc, s0),
                count as int == (if cnt < cc { cnt as int } else { cc as int }),
                read_tokens(ts, 0, vc, s0) == read_tokens(ts, t as int, vc, state_of(notes@, cnt, current@, tmp)),
                holds_problem(tmp, vc, tmp@.inputs),
                t <= ts.len(),
            decreases ts.len() - t,
        {
            assert(toks@[t as int]@ == ts[t as int]);
            match parse_i32(&toks[t]) {
                Some(z) => {
                    if z == i32::MIN {
                        return Err(notes);
                    }
                    if lit_abs(z) as usize > vc {
                        notes.push(ParseNote::VarTooHigh(lit_abs(z)));
                    }
                    if z != 0 {
                        current.push(z);
                    } else {
                        if !tmp.can_add_clause(&current) {
                            return Err(notes);
                        }
                        let ghost old_tmp = tmp;
                        let ghost cur = current@;
                        tmp.add_clause(current);
                        current = Vec::new();
                        if count < cc {
                            count = count + 1;
                        }
                        proof {
                            cnt = cnt + 1;
                            lemma_add_keeps_problem(old_tmp, tmp, vc, cur);
                        }
                    }
                }
                None => {}
            }
            t = t + 1;
        }
        j = j + 1;
    }
    Ok((tmp, notes))
}

/// Reads a problem in DIMACS CNF form, on texts where reading can go on to the end (see
/// `try_parse_text`).
pub fn parse_text(text: &Vec<char>) -> (r: (SatSolver, Vec<ParseNote>))
    requires
        parse_spec(text@) is Finished,
    ensures
        match parse_spec(text@) {
            ParseOutcome::Finished(n, vc, cls) => r.1@ == n && holds_problem(r.0, vc, cls),
            ParseOutcome::Failed(_) => false,
        },
{
    match try_parse_text(text) {
        Ok(res) => res,
        Err(notes) => {
            proof { assert(false); }
            (SatSolver::new(0), notes)
        }
    }
}

proof fn lemma_empty_problem(s: SatSolver)
    requires
        s.wf(),
        s@.num_vars == 0,
        s@.clauses == Seq::<Clause3>::empty(),
        s@.assigns == Seq::new(0nat, |i: int| 0i32),
        s@.status == 0,
        s@.inputs == Seq::<Seq<i32>>::empty(),
        s@.base_vars == 0,
        s@.working == Seq::<Clause3>::empty(),
        s@.graph@ == Map::<int, (i32, i32)>::empty(),
        s@.graph.room() == 0,
        s@.graph.node_count() == 0,
        s@.graph.free_slots() == Seq::<usize>::empty(),
    ensures
        holds_problem(s, 0, Seq::empty()),
{
}

proof fn lemma_add_keeps_problem(s0: SatSolver, s1: SatSolver, vc: usize, cur: Seq<i32>)
    requires
        holds_problem(s0, vc, s0@.inputs),
        s1.wf(),
        s1@.inputs == s0@.inputs.push(cur),
        s1@.base_vars == s0@.base_vars,
        s1@.working == s0@.working,
        s1@.graph == s0@.graph,
        s1@.status == (if cur.len() == 0 { -1i32 } else { s0@.status }),
        s1@.num_vars == s0@.num_vars + added_vars(cur),
        s1@.assigns == s0@.assigns + Seq::new(added_vars(cur) as nat, |i: int| 0i32),
        s1@.clauses.len() == s0@.clauses.len() + stored_clauses(cur, s0@.num_vars as int).len(),
        forall|c: int| 0 <= c < s0@.clauses.len() ==> #[trigger] s1@.clauses[c] == s0@.clauses[c],
        forall|j: int| 0 <= j < stored_clauses(cur, s0@.num_vars as int).len() ==>
            (#[trigger] s1@.clauses[s0@.clauses.len() + j]).literals@ == stored_clauses(cur, s0@.num_vars as int)[j]
            && !s1@.clauses[s0@.clauses.len() + j].sat,
    ensures
        holds_problem(s1, vc, s1@.inputs),
{
    let cls = s1@.inputs;
    assert(cls.drop_last() =~= s0@.inputs);
    assert(cls.last() == cur);
    assert(s1@.assigns =~= Seq::new(s1@.num_vars, |i: int| 0i32));
    let b = encoding(cls, vc as int);
    assert(b == encoding(s0@.inputs, vc as int) + stored_clauses(cur, s0@.num_vars as int));
    assert forall|c: int| 0 <= c < s1@.clauses.len() implies (#[trigger] s1@.clauses[c]).literals@ == b[c]
        && !s1@.clauses[c].sat by {
        if c >= s0@.clauses.len() {
            let j = c - s0@.clauses.len();
            assert(s1@.clauses[s0@.clauses.len() + j].literals@ == stored_clauses(cur, s0@.num_vars as int)[j]);
        }
    }
    if exists|i: int| 0 <= i < cls.len() && #[trigger] cls[i].len() == 0 {
        let i = choose|i: int| 0 <= i < cls.len() && #[trigger] cls[i].len() == 0;
        if i < s0@.inputs.len() {
            assert(s0@.inputs[i].len() == 0);
        }
    } else {
        assert(cur.len() != 0) by {
            assert(cls[cls.len() - 1] == cur);
        }
        assert(!exists|i: int| 0 <= i < s0@.inputs.len() && #[trigger] s0@.inputs[i].len() == 0) by {
            if exists|i: int| 0 <= i < s0@.inputs.len() && #[trigger] s0@.inputs[i].len() == 0 {
                let i = choose|i: int| 0 <= i < s0@.inputs.len() && #[trigger] s0@.inputs[i].len() == 0;
                assert(cls[i].len() == 0);
            }
        }
    }
}

} // verus!
