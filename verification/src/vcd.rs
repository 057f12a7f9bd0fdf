//! Parsing of the value change dump (VCD) text that the simulator streams:
//! the header, which declares the variables, and the messages, each of
//! which gives the values at one simulation time.
use vstd::prelude::*;
use crate::text::{
    all_digits, chars_of, contains_whitespace, has_ws, lines, lines_of, parse_u64, parse_u64_spec,
    same_chars, split_chars, split_on, string_of, trim, trimmed, lemma_split_nonempty,
    lemma_split_append, strip_cr, digits_value, join_with, lemma_join_split, lemma_split_has_sep,
    lemma_digits_concat, is_digit, is_ws,
};
use crate::register::{
    insert_sorted, is_stable_key_sort, with_key, lemma_stable_sort_members, Observation, Register, RegisterView,
};

verus! {

/// Why a header or a message could not be read.
#[derive(PartialEq, Eq, Structural, Clone, Copy, Debug)]
pub enum ParseError {
    /// The header ended before its second marker line (`$dumpvars` or `#0`).
    HeaderMalformed,
    /// A `$var` line has no width, or one that is not a number.
    WidthMalformed,
    /// A `$var` line lacks the identifier code or the name.
    VarnameMalformed,
    /// The message has no line.
    MessageMalformed,
    /// The first line of the message is not `#` (or another one-byte
    /// character) followed by the time as a decimal number.
    TimeMalformed,
    /// A value line is empty, or holds white space but no space.
    RegisterMalformed,
}

/// The word `#0`.
pub open spec fn time_zero_word() -> Seq<char> {
    seq!['#', '0']
}

/// The word `$dumpvars`.
pub open spec fn dumpvars_word() -> Seq<char> {
    seq!['$', 'd', 'u', 'm', 'p', 'v', 'a', 'r', 's']
}

/// The word `$var`.
pub open spec fn var_word() -> Seq<char> {
    seq!['$', 'v', 'a', 'r']
}

/// The word `$end`.
pub open spec fn end_word() -> Seq<char> {
    seq!['$', 'e', 'n', 'd']
}

fn time_zero_chars() -> (v: Vec<char>)
    ensures
        v@ == time_zero_word(),
{
    vec!['#', '0']
}

fn dumpvars_chars() -> (v: Vec<char>)
    ensures
        v@ == dumpvars_word(),
{
    vec!['$', 'd', 'u', 'm', 'p', 'v', 'a', 'r', 's']
}

fn var_chars() -> (v: Vec<char>)
    ensures
        v@ == var_word(),
{
    vec!['$', 'v', 'a', 'r']
}

fn end_chars() -> (v: Vec<char>)
    ensures
        v@ == end_word(),
{
    vec!['$', 'e', 'n', 'd']
}


/// `s` without its first character (the empty text stays empty).
pub open spec fn after_first(s: Seq<char>) -> Seq<char> {
    if s.len() == 0 {
        s
    } else {
        s.drop_first()
    }
}

fn chars_after_first(s: &[char]) -> (t: Vec<char>)
    ensures
        t@ == after_first(s@),
{
    let mut t: Vec<char> = Vec::new();
    if s.len() == 0 {
        return t;
    }
    let mut k: usize = 1;
    while k < s.len()
        invariant
            1 <= k <= s.len(),
            t@ == s@.subrange(1, k as int),
        decreases s.len() - k,
    {
        t.push(s[k]);
        k = k + 1;
        assert(s@.subrange(1, k as int) == s@.subrange(1, k - 1).push(s@[k - 1]));
    }
    assert(s@.subrange(1, s@.len() as int) == s@.drop_first());
    t
}

/// The time that the first line of a message gives: the line without its
/// first character, which must take one byte, read as a decimal number.
pub open spec fn time_of_line(l: Seq<char>) -> Option<u64> {
    if l.len() > 0 && '\u{7F}' >= l[0] {
        parse_u64_spec(l.drop_first(), 10)
    } else {
        None
    }
}

/// The register that a value line of a message gives at `time`, or `None`
/// for a malformed line. A line with white space is a vector value such as
/// `b1010 !`: the binary digits after the first character of the text
/// before the first space, and the identifier code between the first and the
/// second space. A line without white space is a scalar value such as `1!`:
/// one binary digit, then the identifier code. A value that is not binary
/// (an `x` or `z` bit) is `None`.
pub open spec fn register_of_line(l: Seq<char>, time: u64) -> Option<RegisterView> {
    if has_ws(l) {
        let parts = split_on(l, ' ');
        if parts.len() < 2 {
            None
        } else {
            Some(
                RegisterView {
                    key: parts[1],
                    value: parse_u64_spec(after_first(parts[0]), 2),
                    time,
                },
            )
        }
    } else if l.len() == 0 {
        None
    } else {
        Some(RegisterView { key: l.drop_first(), value: parse_u64_spec(seq![l[0]], 2), time })
    }
}

/// What a message says: its time and the registers of its value lines, in
/// the order of the lines; or why it cannot be read.
pub open spec fn message_spec(m: Seq<char>) -> Result<(u64, Seq<RegisterView>), ParseError> {
    let ls = lines_of(m);
    if ls.len() == 0 {
        Err(ParseError::MessageMalformed)
    } else {
        match time_of_line(ls[0]) {
            None => Err(ParseError::TimeMalformed),
            Some(t) => {
                if exists|i: int| 1 <= i < ls.len() && (#[trigger] register_of_line(ls[i], t)) is None {
                    Err(ParseError::RegisterMalformed)
                } else {
                    Ok(
                        (
                            t,
                            Seq::new(
                                (ls.len() - 1) as nat,
                                |i: int| register_of_line(ls[i + 1], t).unwrap(),
                            ),
                        ),
                    )
                }
            },
        }
    }
}

/// The outcome `r` of reading message `m`: the error `message_spec` gives,
/// or an observation at its time whose registers are its registers sorted by
/// key, stably.
pub open spec fn message_result(m: Seq<char>, r: Result<Observation, ParseError>) -> bool {
    match r {
        Ok(o) => match message_spec(m) {
            Ok((t, regs)) => o.time == t && is_stable_key_sort(o.values_view(), regs),
            Err(_) => false,
        },
        Err(e) => message_spec(m) == Err::<(u64, Seq<RegisterView>), ParseError>(e),
    }
}

/// Reads one value line.
fn register_of(l: &Vec<char>, time: u64) -> (r: Option<Register>)
    ensures
        r is Some <==> register_of_line(l@, time) is Some,
        r matches Some(x) ==> x@ == register_of_line(l@, time).unwrap(),
{
    if contains_whitespace(l) {
        let parts = split_chars(l.as_slice(), ' ');
        if parts.len() < 2 {
            return None;
        }
        let digits = chars_after_first(parts[0].as_slice());
        let value = parse_u64(digits.as_slice(), 2);
        let key = string_of(parts[1].as_slice());
        assert(digits@ == after_first(split_on(l@, ' ')[0]));
        assert(key@ == split_on(l@, ' ')[1]);
        let r = Register::new(time, key.as_str(), value);
        assert(r@.key == split_on(l@, ' ')[1]);
        Some(r)
    } else if l.len() == 0 {
        None
    } else {
        let bit = vec![l[0]];
        let value = parse_u64(bit.as_slice(), 2);
        let rest = chars_after_first(l.as_slice());
        let key = string_of(rest.as_slice());
        assert(bit@ == seq![l@[0]]);
        assert(key@ == l@.drop_first());
        Some(Register::new(time, key.as_str(), value))
    }
}

/// Reads a message given as characters.
fn parse_message_chars(m: &[char]) -> (r: Result<Observation, ParseError>)
    ensures
        message_result(m@, r),
{
    let ls = lines(m);
    let ghost lsv = lines_of(m@);
    assert(ls@.len() == lsv.len());
    if ls.len() == 0 {
        return Err(ParseError::MessageMalformed);
    }
    let first = &ls[0];
    if !(first.len() > 0 && '\u{7F}' >= first[0]) {
        return Err(ParseError::TimeMalformed);
    }
    let rest = chars_after_first(first.as_slice());
    let time = match parse_u64(rest.as_slice(), 10) {
        None => {
            return Err(ParseError::TimeMalformed);
        },
        Some(t) => t,
    };
    assert(time_of_line(lsv[0]) == Some(time));
    let mut obs = Observation::new(time);
    let mut i: usize = 1;
    let ghost mut regs: Seq<RegisterView> = Seq::empty();
    while i < ls.len()
        invariant
            1 <= i <= ls@.len(),
            ls@.len() == lsv.len(),
            lsv == lines_of(m@),
            forall|j: int| 0 <= j < ls@.len() ==> #[trigger] ls@[j]@ == lsv[j],
            obs.time == time,
            time_of_line(lsv[0]) == Some(time),
            regs.len() == i - 1,
            forall|j: int| 1 <= j < i ==> (#[trigger] register_of_line(lsv[j], time)) is Some,
            forall|j: int| 0 <= j < i - 1 ==> #[trigger] regs[j] == register_of_line(lsv[j + 1], time).unwrap(),
            is_stable_key_sort(obs.values_view(), regs),
        decreases ls@.len() - i,
    {
        match register_of(&ls[i], time) {
            None => {
                assert(register_of_line(lsv[i as int], time) is None);
                return Err(ParseError::RegisterMalformed);
            },
            Some(x) => {
                let ghost old_view = obs.values_view();
                let ghost xv = x@;
                insert_sorted(&mut obs.values, x);
                proof {
                    assert forall|k: Seq<char>| #[trigger] with_key(obs.values_view(), k) == with_key(regs.push(xv), k) by {
                        assert(old_view.push(xv).drop_last() == old_view);
                        assert(regs.push(xv).drop_last() == regs);
                        assert(with_key(old_view, k) == with_key(regs, k));
                    }
                    regs = regs.push(xv);
                }
            },
        }
        i = i + 1;
    }
    proof {
        let all = Seq::new((lsv.len() - 1) as nat, |j: int| register_of_line(lsv[j + 1], time).unwrap());
        assert(regs == all);
        assert(!exists|j: int| 1 <= j < lsv.len() && (#[trigger] register_of_line(lsv[j], time)) is None);
    }
    Ok(obs)
}

/// Reads a message: its first line is `#` and the time, each further line a
/// value. The registers come sorted by key; those with one key keep the order
/// of their lines.
pub fn parse_message(msg: &str) -> (r: Result<Observation, ParseError>)
    ensures
        message_result(msg@, r),
{
    let m = chars_of(msg);
    parse_message_chars(m.as_slice())
}


/// A variable that the header declares: its identifier code, its name and
/// its width in bits.
#[derive(Clone, Debug)]
pub struct VarDecl {
    pub id: String,
    pub name: String,
    pub width: u64,
}

/// A declared variable, as mathematical values.
pub struct VarView {
    pub id: Seq<char>,
    pub name: Seq<char>,
    pub width: u64,
}

impl View for VarDecl {
    type V = VarView;

    open spec fn view(&self) -> VarView {
        VarView { id: self.id@, name: self.name@, width: self.width }
    }
}

/// What the header gives: its variables, in the order of their lines, and
/// the observation at time zero that follows them.
#[derive(Clone, Debug)]
pub struct Header {
    pub vars: Vec<VarDecl>,
    pub observation: Observation,
}

/// Whether a header line marks the end of the declarations: `$dumpvars` or
/// `#0`, around white space.
pub open spec fn is_marker(l: Seq<char>) -> bool {
    trim(l) == dumpvars_word() || trim(l) == time_zero_word()
}

/// The number of header lines, counted from line `i` on with `seen` markers
/// seen before it: up to and with the line of the second marker; `None`
/// where the lines end first.
pub open spec fn header_lines_from(ls: Seq<Seq<char>>, i: int, seen: nat) -> Option<int>
    decreases ls.len() - i,
{
    if i < 0 || i >= ls.len() {
        None
    } else {
        let now = if is_marker(ls[i]) {
            seen + 1
        } else {
            seen
        };
        if now >= 2 {
            Some(i + 1)
        } else {
            header_lines_from(ls, i + 1, now)
        }
    }
}

/// The number of header lines.
pub open spec fn header_lines(ls: Seq<Seq<char>>) -> Option<int> {
    header_lines_from(ls, 0, 0)
}

/// What a header line declares. A line whose first space-separated word is
/// `$var` declares a variable: `$var <kind> <width> <id> <name> ...`. Other
/// lines declare nothing.
pub open spec fn var_of_line(l: Seq<char>) -> Result<Option<VarView>, ParseError> {
    let p = split_on(l, ' ');
    if p[0] != var_word() {
        Ok(None)
    } else if p.len() < 3 || parse_u64_spec(p[2], 10) is None {
        Err(ParseError::WidthMalformed)
    } else if p.len() < 5 {
        Err(ParseError::VarnameMalformed)
    } else {
        Ok(Some(VarView { id: p[3], name: p[4], width: parse_u64_spec(p[2], 10).unwrap() }))
    }
}

/// The first error among the declarations of the first `n` lines.
pub open spec fn first_var_error(ls: Seq<Seq<char>>, n: int) -> Option<ParseError>
    decreases n,
{
    if n <= 0 {
        None
    } else {
        match first_var_error(ls, n - 1) {
            Some(e) => Some(e),
            None => match var_of_line(ls[n - 1]) {
                Err(e) => Some(e),
                Ok(_) => None,
            },
        }
    }
}

/// The variables that the first `n` lines declare, in order.
pub open spec fn vars_of(ls: Seq<Seq<char>>, n: int) -> Seq<VarView>
    decreases n,
{
    if n <= 0 {
        Seq::empty()
    } else {
        match var_of_line(ls[n - 1]) {
            Ok(Some(v)) => vars_of(ls, n - 1).push(v),
            _ => vars_of(ls, n - 1),
        }
    }
}

/// The lines `ls`, each followed by a line feed, without those that are
/// `$end`.
pub open spec fn body_text(ls: Seq<Seq<char>>) -> Seq<char>
    decreases ls.len(),
{
    if ls.len() == 0 {
        Seq::empty()
    } else {
        let b = body_text(ls.drop_last());
        if ls.last() == end_word() {
            b
        } else {
            b + ls.last() + seq!['\n']
        }
    }
}

/// The message that follows a header of `n` lines: `#0`, then the lines
/// after the header but `$end`.
pub open spec fn rest_message(ls: Seq<Seq<char>>, n: int) -> Seq<char> {
    time_zero_word().push('\n') + body_text(ls.skip(n))
}

/// What a header says: its variables and the message that follows it; or why
/// it cannot be read (a malformed declaration within the header lines comes
/// first, then a missing end of the header).
pub open spec fn header_spec(h: Seq<char>) -> Result<(Seq<VarView>, Seq<char>), ParseError> {
    let ls = lines_of(h);
    let n = match header_lines(ls) {
        Some(n) => n,
        None => ls.len() as int,
    };
    match first_var_error(ls, n) {
        Some(e) => Err(e),
        None => match header_lines(ls) {
            None => Err(ParseError::HeaderMalformed),
            Some(_) => Ok((vars_of(ls, n), rest_message(ls, n))),
        },
    }
}

/// The views of a sequence of declarations.
pub open spec fn vars_view(s: Seq<VarDecl>) -> Seq<VarView> {
    s.map_values(|v: VarDecl| v@)
}

/// Reads the declaration of one header line.
fn var_of(l: &Vec<char>) -> (r: Result<Option<VarDecl>, ParseError>)
    ensures
        match r {
            Ok(Some(v)) => var_of_line(l@) == Ok::<Option<VarView>, ParseError>(Some(v@)),
            Ok(None) => var_of_line(l@) == Ok::<Option<VarView>, ParseError>(None),
            Err(e) => var_of_line(l@) == Err::<Option<VarView>, ParseError>(e),
        },
{
    let p = split_chars(l.as_slice(), ' ');
    proof {
        lemma_split_nonempty(l@, ' ');
    }
    let word = var_chars();
    if !same_chars(p[0].as_slice(), word.as_slice()) {
        return Ok(None);
    }
    if p.len() < 3 {
        return Err(ParseError::WidthMalformed);
    }
    let width = match parse_u64(p[2].as_slice(), 10) {
        None => {
            return Err(ParseError::WidthMalformed);
        },
        Some(w) => w,
    };
    if p.len() < 5 {
        return Err(ParseError::VarnameMalformed);
    }
    let id = string_of(p[3].as_slice());
    let name = string_of(p[4].as_slice());
    Ok(Some(VarDecl { id, name, width }))
}

/// Reads a header: the declaration lines up to and with the second marker
/// line (`$dumpvars` or `#0`), then the values at time zero, which the lines
/// after it give (`$end` lines left out).
pub fn parse_header(header: &str) -> (r: Result<Header, ParseError>)
    ensures
        match r {
            Ok(hd) => match header_spec(header@) {
                Ok((vars, rest)) => vars_view(hd.vars@) == vars && message_result(
                    rest,
                    Ok::<Observation, ParseError>(hd.observation),
                ),
                Err(_) => false,
            },
            Err(e) => match header_spec(header@) {
                Err(e2) => e == e2,
                Ok((_, rest)) => message_result(rest, Err::<Observation, ParseError>(e)),
            },
        },
{
    let cs = chars_of(header);
    let ls = lines(cs.as_slice());
    let ghost lsv = lines_of(header@);
    let dumpvars = dumpvars_chars();
    let time_zero = time_zero_chars();
    let mut vars: Vec<VarDecl> = Vec::new();
    let mut stage: u64 = 0;
    let mut i: usize = 0;
    while stage < 2
        invariant_except_break
            header_lines(lsv) == header_lines_from(lsv, i as int, stage as nat),
            stage < 2,
        invariant
            lsv == lines_of(header@),
            ls@.len() == lsv.len(),
            forall|j: int| 0 <= j < ls@.len() ==> #[trigger] ls@[j]@ == lsv[j],
            dumpvars@ == dumpvars_word(),
            time_zero@ == time_zero_word(),
            i <= ls@.len(),
            stage <= 2,
            first_var_error(lsv, i as int) is None,
            vars_view(vars@) == vars_of(lsv, i as int),
        ensures
            header_lines(lsv) == Some(i as int),
        decreases ls@.len() - i,
    {
        if i >= ls.len() {
            assert(header_lines_from(lsv, i as int, stage as nat) is None);
            assert(first_var_error(lsv, lsv.len() as int) is None);
            return Err(ParseError::HeaderMalformed);
        }
        let line = &ls[i];
        let t = trimmed(line.as_slice());
        let marker = same_chars(t.as_slice(), dumpvars.as_slice()) || same_chars(
            t.as_slice(),
            time_zero.as_slice(),
        );
        assert(marker == is_marker(lsv[i as int]));
        let ghost old_stage = stage;
        if marker {
            stage = stage + 1;
        }
        match var_of(line) {
            Err(e) => {
                proof {
                    assert(first_var_error(lsv, i + 1) == Some(e));
                    if stage >= 2 {
                        assert(header_lines(lsv) == Some(i + 1));
                    } else {
                        lemma_header_end_after(lsv, i + 1, stage as nat);
                    }
                    lemma_first_error_extends(lsv, i + 1);
                }
                return Err(e);
            },
            Ok(Some(v)) => {
                vars.push(v);
                proof {
                    assert(vars_view(vars@) == vars_view(vars@).drop_last().push(v@));
                    assert(vars_view(vars@).drop_last() == vars_of(lsv, i as int));
                }
            },
            Ok(None) => {},
        }
        i = i + 1;
        if stage >= 2 {
            break;
        }
    }
    let ghost n = i as int;
    assert(header_lines(lsv) == Some(n));
    let mut rest: Vec<char> = vec!['#', '0', '\n'];
    let end = end_chars();
    let mut j: usize = i;
    assert(lsv.skip(n).take(0) == Seq::<Seq<char>>::empty());
    while j < ls.len()
        invariant
            0 <= n <= j <= ls@.len(),
            ls@.len() == lsv.len(),
            forall|k: int| 0 <= k < ls@.len() ==> #[trigger] ls@[k]@ == lsv[k],
            end@ == end_word(),
            rest@ == time_zero_word().push('\n') + body_text(lsv.skip(n).take(j - n)),
        decreases ls@.len() - j,
    {
        let line = &ls[j];
        let ghost before = rest@;
        proof {
            let tail = lsv.skip(n);
            assert(tail.len() == lsv.len() - n);
            assert(tail[j - n] == lsv[j as int]);
            assert(tail.take(j + 1 - n).drop_last() =~= tail.take(j - n));
            assert(tail.take(j + 1 - n).last() == lsv[j as int]);
        }
        if !same_chars(line.as_slice(), end.as_slice()) {
            let mut k: usize = 0;
            while k < line.len()
                invariant
                    k <= line@.len(),
                    rest@ == before + line@.take(k as int),
                decreases line@.len() - k,
            {
                rest.push(line[k]);
                k = k + 1;
                assert(line@.take(k as int) == line@.take(k - 1).push(line@[k - 1]));
            }
            rest.push('\n');
            assert(line@.take(line@.len() as int) == line@);
        }
        j = j + 1;
    }
    assert(lsv.skip(n).take(lsv.len() - n) == lsv.skip(n));
    let observation = match parse_message_chars(rest.as_slice()) {
        Ok(o) => o,
        Err(e) => {
            return Err(e);
        },
    };
    Ok(Header { vars, observation })
}

/// Once an error is found within the first `n` lines, it stays the first one
/// for any longer prefix.
proof fn lemma_first_error_extends(ls: Seq<Seq<char>>, n: int)
    requires
        first_var_error(ls, n) is Some,
    ensures
        forall|m: int| m >= n ==> #[trigger] first_var_error(ls, m) == first_var_error(ls, n),
{
    assert forall|m: int| m >= n implies #[trigger] first_var_error(ls, m) == first_var_error(ls, n) by {
        lemma_first_error_stays(ls, n, m);
    }
}

proof fn lemma_first_error_stays(ls: Seq<Seq<char>>, n: int, m: int)
    requires
        first_var_error(ls, n) is Some,
        m >= n,
    ensures
        first_var_error(ls, m) == first_var_error(ls, n),
    decreases m - n,
{
    if m > n {
        lemma_first_error_stays(ls, n, m - 1);
    }
}

/// The header, where it ends, ends at or after line `i`.
proof fn lemma_header_end_after(ls: Seq<Seq<char>>, i: int, seen: nat)
    requires
        0 <= i,
        seen < 2,
    ensures
        header_lines_from(ls, i, seen) matches Some(n) ==> n > i,
    decreases ls.len() - i,
{
    if i < ls.len() {
        let now = if is_marker(ls[i]) {
            seen + 1
        } else {
            seen
        };
        if now < 2 {
            lemma_header_end_after(ls, i + 1, now);
        }
    }
}


/// The values that follow a header are at time zero: where the header and
/// the message after it can be read, the message's time is 0.
pub proof fn lemma_header_values_at_time_zero(h: Seq<char>)
    requires
        header_spec(h) is Ok,
        message_spec(header_spec(h).unwrap().1) is Ok,
    ensures
        message_spec(header_spec(h).unwrap().1).unwrap().0 == 0,
{
    let rest = header_spec(h).unwrap().1;
    let ls = lines_of(h);
    let n = header_lines(ls).unwrap();
    let head = time_zero_word().push('\n');
    assert(rest == head + body_text(ls.skip(n)));
    lemma_split_append(head, body_text(ls.skip(n)), '\n');
    reveal_with_fuel(split_on, 4);
    assert(head.drop_last() == time_zero_word());
    assert(time_zero_word().drop_last() == seq!['#']);
    assert(seq!['#'].drop_last() == Seq::<char>::empty());
    let e = Seq::<char>::empty();
    assert(split_on(e, '\n') == seq![e]);
    assert(split_on(seq!['#'], '\n') == seq![seq!['#']]) by {
        assert(seq!['#'].last() == '#');
        assert(e.push('#') == seq!['#']);
    }
    assert(split_on(time_zero_word(), '\n') == seq![time_zero_word()]) by {
        assert(time_zero_word().last() == '0');
        assert(seq!['#'].push('0') == time_zero_word());
    }
    assert(split_on(head, '\n') == seq![time_zero_word(), e]) by {
        assert(head.last() == '\n');
        assert(seq![time_zero_word()].push(e) == seq![time_zero_word(), e]);
    }
    let p = split_on(rest, '\n');
    assert(p[0] == time_zero_word());
    let l0 = lines_of(rest)[0];
    assert(l0 == strip_cr(p[0]));
    assert(l0 == time_zero_word());
    assert(l0.drop_first() == seq!['0']);
    assert(seq!['0'].drop_last() == Seq::<char>::empty());
    assert(seq!['0'].last() == '0');
    assert(digits_value(Seq::<char>::empty(), 10) == 0);
    assert(digits_value(seq!['0'], 10) == 0);
    assert(all_digits(seq!['0'], 10));
}


/// Every register of a message that can be read carries the message's time.
pub proof fn lemma_message_registers_share_time(m: Seq<char>, o: Observation)
    requires
        message_result(m, Ok::<Observation, ParseError>(o)),
    ensures
        forall|i: int| 0 <= i < o.values@.len() ==> (#[trigger] o.values@[i])@.time == o.time,
{
    let regs = message_spec(m).unwrap().1;
    lemma_stable_sort_members(o.values_view(), regs);
    assert forall|i: int| 0 <= i < o.values@.len() implies (#[trigger] o.values@[i])@.time == o.time by {
        assert(o.values_view()[i] == o.values@[i]@);
        assert(regs.contains(o.values_view()[i]));
        let j = choose|j: int| 0 <= j < regs.len() && regs[j] == o.values_view()[i];
        let ls = lines_of(m);
        assert(regs[j] == register_of_line(ls[j + 1], o.time).unwrap());
    }
}


/// Whether no piece of `p` holds a space.
pub open spec fn words_without_space(p: Seq<Seq<char>>) -> bool {
    forall|i: int, j: int| 0 <= i < p.len() && 0 <= j < p[i].len() ==> #[trigger] p[i][j] != ' '
}

/// A `$var` line declares the variable its words give: for the line
/// `$var <kind> <w> <id> <name> ...` (words without spaces, one space
/// between each two), the identifier code is the whole fourth word, the name
/// the whole fifth, and the width the decimal number that the whole third word
/// writes; a third word that is not one makes the width malformed.
pub proof fn lemma_var_line_declares(
    kind: Seq<char>,
    w: Seq<char>,
    id: Seq<char>,
    name: Seq<char>,
    more: Seq<Seq<char>>,
)
    requires
        words_without_space(seq![var_word(), kind, w, id, name] + more),
    ensures
        var_of_line(join_with(seq![var_word(), kind, w, id, name] + more, ' ')) == match parse_u64_spec(
            w,
            10,
        ) {
            Some(n) => Ok::<Option<VarView>, ParseError>(Some(VarView { id, name, width: n })),
            None => Err(ParseError::WidthMalformed),
        },
{
    let p = seq![var_word(), kind, w, id, name] + more;
    lemma_join_split(p, ' ');
    assert(p[0] == var_word() && p[2] == w && p[3] == id && p[4] == name);
}

/// A decimal width word gives its number: a width word `w` made of decimal
/// digits followed by one more digit `d` gives ten times the number of `w`
/// plus `d` (so `16` gives 16, not 1).
pub proof fn lemma_width_digits(w: Seq<char>, d: char)
    requires
        w.len() > 0,
        w[0] != '+',
        '0' <= d <= '9',
        parse_u64_spec(w, 10) is Some,
        parse_u64_spec(w, 10).unwrap() * 10 + (d as int - '0' as int) <= u64::MAX,
    ensures
        parse_u64_spec(w.push(d), 10) == Some(
            (parse_u64_spec(w, 10).unwrap() * 10 + (d as int - '0' as int)) as u64,
        ),
{
    lemma_digits_concat(w, seq![d], 10);
    reveal(vstd::arithmetic::power::pow);
    assert(w + seq![d] == w.push(d));
    assert(seq![d].drop_last() == Seq::<char>::empty());
    assert(seq![d].last() == d);
    assert(digits_value(Seq::<char>::empty(), 10) == 0);
    assert(vstd::arithmetic::power::pow(10, 1) == 10 * vstd::arithmetic::power::pow(10, 0));
    assert(all_digits(w.push(d), 10)) by {
        assert forall|i: int| 0 <= i < w.push(d).len() implies is_digit(#[trigger] w.push(d)[i], 10) by {
            if i < w.len() {
                assert(w.push(d)[i] == w[i]);
            }
        }
    }
}

/// A value character reads as a bit: `0` is 0, `1` is 1, anything else (an
/// `x` or `z` bit) is no value.
pub proof fn lemma_bit_value(c: char)
    ensures
        parse_u64_spec(seq![c], 2) == (if c == '0' {
            Some(0u64)
        } else if c == '1' {
            Some(1u64)
        } else {
            None
        }),
{
    let s = seq![c];
    assert(s.drop_last() == Seq::<char>::empty());
    assert(s.last() == c && s[0] == c);
    assert(digits_value(Seq::<char>::empty(), 2) == 0);
    if c == '0' || c == '1' {
        assert(all_digits(s, 2));
    } else {
        assert(!is_digit(s[0], 2));
    }
}

/// A scalar value line is one value character followed by the identifier
/// code: the register's key is the whole rest of the line, however long,
/// and its value the bit that the first character reads as.
pub proof fn lemma_scalar_line(c: char, k: Seq<char>, time: u64)
    requires
        !is_ws(c),
        forall|i: int| 0 <= i < k.len() ==> !is_ws(#[trigger] k[i]),
    ensures
        register_of_line(seq![c] + k, time) == Some(
            RegisterView { key: k, value: parse_u64_spec(seq![c], 2), time },
        ),
{
    let l = seq![c] + k;
    assert(!has_ws(l)) by {
        if has_ws(l) {
            let i = choose|i: int| 0 <= i < l.len() && is_ws(#[trigger] l[i]);
            if i > 0 {
                assert(l[i] == k[i - 1]);
            }
        }
    }
    assert(l[0] == c);
    assert(l.drop_first() == k);
}

/// A vector value line is `b<bits> <id> ...`: the register's key is the whole
/// second word, and its value the binary number after the first character of
/// the first word.
pub proof fn lemma_vector_line(x: Seq<char>, k: Seq<char>, more: Seq<Seq<char>>, time: u64)
    requires
        words_without_space(seq![x, k] + more),
    ensures
        register_of_line(join_with(seq![x, k] + more, ' '), time) == Some(
            RegisterView { key: k, value: parse_u64_spec(after_first(x), 2), time },
        ),
{
    let p = seq![x, k] + more;
    let l = join_with(p, ' ');
    lemma_join_split(p, ' ');
    lemma_split_has_sep(l, ' ');
    let i = choose|i: int| 0 <= i < l.len() && l[i] == ' ';
    assert(is_ws(l[i]));
    assert(p[0] == x && p[1] == k);
}

} // verus!
