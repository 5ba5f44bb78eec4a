//! The transition table, its parser, and the execution engine.
//!
//! A program text is a sequence of lines; each non-blank line, after
//! trimming, is a record `state,condition,action,next`.  The parser turns the
//! text into a table keyed by (state, condition symbol); a later record with
//! the same key overwrites an earlier one.  Every target state must also
//! appear as a source state somewhere in the table.  The engine starts in
//! state zero and repeatedly looks the pair (state, symbol under the head) up
//! in the table, applying the action until a halting transition is reached;
//! a configuration with no matching transition stops the run with an error.

use crate::tape::BLANK;
use vstd::string::StrSliceExecFns;
use crate::tape::Tape;
use crate::tape::TapeView;
use vstd::prelude::*;

verus! {

/// The state every run starts in.
pub const START_STATE: usize = 0;

/// The action of one transition.
#[derive(Clone, Copy)]
pub enum Op {
    /// Move the head one cell to the left.
    Left,
    /// Move the head one cell to the right.
    Right,
    /// Write the given symbol to the cell under the head.
    Write(char),
    /// Stop the run.
    End,
}

/// One parsed record of the program text: in state `state`, on reading
/// `symbol`, perform `op` and continue in state `next`.
#[derive(Clone, Copy)]
pub struct Rule {
    pub state: usize,
    pub symbol: char,
    pub op: Op,
    pub next: usize,
}

/// The transition table that a sequence of records builds: keyed by
/// (source state, condition symbol), a later record overwriting an earlier
/// one with the same key.
pub open spec fn rules_table(rs: Seq<Rule>) -> Map<(usize, char), (Op, usize)>
    decreases rs.len(),
{
    if rs.len() == 0 {
        Map::empty()
    } else {
        rules_table(rs.drop_last()).insert(
            (rs.last().state, rs.last().symbol),
            (rs.last().op, rs.last().next),
        )
    }
}

/// A Turing machine: an immutable transition table and the tape it runs on.
pub struct Machine {
    rules: Vec<Rule>,
    tape: Tape,
}

/// One configuration of a run: the control state and the tape value.
#[verifier::ext_equal]
pub ghost struct Config {
    pub state: usize,
    pub tape: TapeView,
}

/// The table key that a configuration is looked up under.
pub open spec fn config_key(c: Config) -> (usize, char) {
    (c.state, c.tape.current)
}

/// True when the table maps the configuration to a halting transition.
pub open spec fn is_halting(t: Map<(usize, char), (Op, usize)>, c: Config) -> bool {
    t.contains_key(config_key(c)) && t[config_key(c)].0 is End
}

/// True when the table has no transition for the configuration: the machine
/// has no defined behaviour there and the run must stop with an error.
pub open spec fn is_stuck(t: Map<(usize, char), (Op, usize)>, c: Config) -> bool {
    !t.contains_key(config_key(c))
}

/// True when the run can make no further step from the configuration.
pub open spec fn is_terminal(t: Map<(usize, char), (Op, usize)>, c: Config) -> bool {
    is_halting(t, c) || is_stuck(t, c)
}

/// The configuration after one step of the machine.  Halting and stuck
/// configurations step to themselves.
pub open spec fn step(t: Map<(usize, char), (Op, usize)>, c: Config) -> Config {
    if t.contains_key(config_key(c)) {
        let (op, next) = t[config_key(c)];
        match op {
            Op::End => c,
            Op::Left => Config { state: next, tape: c.tape.shifted_left() },
            Op::Right => Config { state: next, tape: c.tape.shifted_right() },
            Op::Write(ch) => Config { state: next, tape: c.tape.written(ch) },
        }
    } else {
        c
    }
}

/// The configuration after `n` steps of the machine.
pub open spec fn run(t: Map<(usize, char), (Op, usize)>, c: Config, n: nat) -> Config
    decreases n,
{
    if n == 0 {
        c
    } else {
        step(t, run(t, c, (n - 1) as nat))
    }
}

/// True when the run from `c` reaches, in finitely many steps, a halting or
/// stuck configuration.  A table whose run never does is a machine that runs
/// forever, which the model allows and `execute` cannot return from.
pub open spec fn reaches_terminal(t: Map<(usize, char), (Op, usize)>, c: Config) -> bool {
    exists|n: nat| is_terminal(t, run(t, c, n))
}

/// The fatal run-time error: the machine reached a configuration for which
/// the table defines no transition.
#[derive(Debug, Clone, Copy, PartialEq, Eq, Structural)]
pub struct UndefinedTransition {
    /// The state the machine was in.
    pub state: usize,
    /// The symbol that was under the head.
    pub symbol: char,
}

/// What a finished run guarantees: some finite number of steps leads from the
/// start configuration to a terminal one; the tape afterwards is that
/// configuration's tape; a halting transition yields `Ok`, a configuration
/// with no transition yields the error naming exactly that configuration.
pub open spec fn execution_result(
    t: Map<(usize, char), (Op, usize)>,
    c0: Config,
    tape_after: TapeView,
    r: Result<(), UndefinedTransition>,
) -> bool {
    exists|n: nat|
        {
            let cf = #[trigger] run(t, c0, n);
            &&& is_terminal(t, cf)
            &&& tape_after == cf.tape
            &&& match r {
                Ok(_) => is_halting(t, cf),
                Err(e) => is_stuck(t, cf) && e.state == cf.state && e.symbol == cf.tape.current,
            }
        }
}

/// The tape after an input string is written out cell by cell: each symbol is
/// written under the head and the head then moves one cell to the right.
pub open spec fn input_applied(t: TapeView, s: Seq<char>) -> TapeView
    decreases s.len(),
{
    if s.len() == 0 {
        t
    } else {
        input_applied(t.written(s[0]).shifted_right(), s.drop_first())
    }
}

/// When some number of steps reaches a terminal configuration, there is a
/// least such number.
proof fn lemma_first_terminal_exists(t: Map<(usize, char), (Op, usize)>, c: Config, n: nat)
    requires
        is_terminal(t, run(t, c, n)),
    ensures
        exists|k: nat|
            #[trigger] is_terminal(t, run(t, c, k)) && forall|m: nat|
                m < k ==> !is_terminal(t, run(t, c, m)),
    decreases n,
{
    if exists|m: nat| m < n && is_terminal(t, run(t, c, m)) {
        let m = choose|m: nat| m < n && is_terminal(t, run(t, c, m));
        lemma_first_terminal_exists(t, c, m);
    } else {
        assert(is_terminal(t, run(t, c, n)) && forall|m: nat|
            m < n ==> !is_terminal(t, run(t, c, m)));
    }
}

/// Looks (state, symbol) up in the table built from `rules`: the value of the
/// last matching record, if any record matches.
fn lookup_rule(rules: &Vec<Rule>, state: usize, symbol: char) -> (r: Option<(Op, usize)>)
    ensures
        match r {
            Some(v) => rules_table(rules@).contains_key((state, symbol)) && rules_table(rules@)[
                (state, symbol)
            ] == v,
            None => !rules_table(rules@).contains_key((state, symbol)),
        },
{
    let mut found: Option<(Op, usize)> = None;
    let mut i: usize = 0;
    while i < rules.len()
        invariant
            i <= rules@.len(),
            match found {
                Some(v) => rules_table(rules@.take(i as int)).contains_key((state, symbol))
                    && rules_table(rules@.take(i as int))[(state, symbol)] == v,
                None => !rules_table(rules@.take(i as int)).contains_key((state, symbol)),
            },
        decreases rules@.len() - i,
    {
        let rule = rules[i];
        if rule.state == state && rule.symbol == symbol {
            found = Some((rule.op, rule.next));
        }
        i = i + 1;
        proof {
            assert(rules@.take(i as int).drop_last() =~= rules@.take(i - 1));
            assert(rules@.take(i as int).last() == rules@[i - 1]);
        }
    }
    proof {
        assert(rules@.take(rules@.len() as int) =~= rules@);
    }
    found
}

impl Machine {
    /// The transition table of the machine, as a mapping from (state,
    /// condition symbol) to (action, next state).
    pub closed spec fn table(&self) -> Map<(usize, char), (Op, usize)> {
        rules_table(self.rules@)
    }

    /// The value of the machine's tape.
    pub closed spec fn tape_view(&self) -> TapeView {
        self.tape@
    }

    /// The machine's start configuration: state zero on the current tape.
    pub open spec fn start_config(&self) -> Config {
        Config { state: START_STATE as usize, tape: self.tape_view() }
    }

    /// The machine's tape.
    pub fn tape(&self) -> (t: &Tape)
        ensures
            t@ == self.tape_view(),
    {
        &self.tape
    }

    /// Writes `input` onto the tape symbol by symbol, moving the head one
    /// cell right after each write.  The head ends one cell past the last
    /// written symbol.
    pub fn set_input(&mut self, input: &str)
        ensures
            final (self).table() == old(self).table(),
            final (self).tape_view() == input_applied(old(self).tape_view(), input@),
    {
        let n = input.unicode_len();
        proof {
            assert(input@.skip(0) =~= input@);
        }
        let mut i: usize = 0;
        while i < n
            invariant
                i <= n,
                n == input@.len(),
                self.rules@ == old(self).rules@,
                input_applied(old(self).tape_view(), input@) == input_applied(
                    self.tape@,
                    input@.skip(i as int),
                ),
            decreases n - i,
        {
            let c = input.get_char(i);
            self.tape.set_current(c);
            self.tape.shift_right();
            i = i + 1;
            proof {
                assert(input@.skip(i - 1).drop_first() =~= input@.skip(i as int));
                assert(input@.skip(i - 1)[0] == input@[i - 1]);
            }
        }
        proof {
            assert(input@.skip(n as int) =~= Seq::<char>::empty());
        }
    }

    /// Runs the machine from state zero until it reaches a halting
    /// transition, calling `callback` once per step — with the tape as it is
    /// before the step's action, the current state and the step's target
    /// state — in execution order.  A configuration with no transition in the
    /// table stops the run with the error naming that configuration.
    pub fn execute_with_callback<F: Fn(&Tape, usize, usize)>(&mut self, callback: F) -> (r: Result<
        (),
        UndefinedTransition,
    >)
        requires
            reaches_terminal(old(self).table(), old(self).start_config()),
            forall|t: &Tape, a: usize, b: usize| #[trigger] call_requires(callback, (t, a, b)),
        ensures
            final (self).table() == old(self).table(),
            execution_result(
                old(self).table(),
                old(self).start_config(),
                final (self).tape_view(),
                r,
            ),
    {
        let ghost tbl = self.table();
        let ghost c0 = self.start_config();
        proof {
            let n = choose|n: nat| is_terminal(tbl, run(tbl, c0, n));
            lemma_first_terminal_exists(tbl, c0, n);
        }
        let ghost n_min = choose|k: nat|
            #[trigger] is_terminal(tbl, run(tbl, c0, k)) && forall|m: nat|
                m < k ==> !is_terminal(tbl, run(tbl, c0, m));
        let mut state: usize = START_STATE;
        let ghost mut steps: nat = 0;
        loop
            invariant
                self.rules@ == old(self).rules@,
                tbl == rules_table(self.rules@),
                tbl == old(self).table(),
                c0 == old(self).start_config(),
                steps <= n_min,
                (Config { state: state, tape: self.tape@ }) == run(tbl, c0, steps),
                is_terminal(tbl, run(tbl, c0, n_min)),
                forall|m: nat| m < n_min ==> !is_terminal(tbl, run(tbl, c0, m)),
                forall|t: &Tape, a: usize, b: usize| #[trigger] call_requires(callback, (t, a, b)),
            decreases n_min - steps,
        {
            let ghost here = Config { state: state, tape: self.tape@ };
            let current = self.tape.get_current();
            let looked_up = lookup_rule(&self.rules, state, current);
            match looked_up {
                None => {
                    proof {
                        assert(is_stuck(tbl, here));
                        assert(here == run(tbl, c0, steps));
                        assert(steps == n_min);
                        assert(is_terminal(tbl, run(tbl, c0, steps)));
                        assert(execution_result(
                            tbl,
                            c0,
                            self.tape@,
                            Err(UndefinedTransition { state: state, symbol: current }),
                        ));
                    }
                    return Err(UndefinedTransition { state, symbol: current });
                },
                Some((op, next)) => {
                    callback(&self.tape, state, next);
                    match op {
                        Op::End => {
                            proof {
                                assert(is_halting(tbl, here));
                                assert(here == run(tbl, c0, steps));
                                assert(steps == n_min);
                                assert(is_terminal(tbl, run(tbl, c0, steps)));
                                assert(execution_result(tbl, c0, self.tape@, Ok(())));
                            }
                            return Ok(());
                        },
                        Op::Left => {
                            self.tape.shift_left();
                        },
                        Op::Right => {
                            self.tape.shift_right();
                        },
                        Op::Write(c) => {
                            self.tape.set_current(c);
                        },
                    }
                    state = next;
                    proof {
                        assert(!is_terminal(tbl, here)) by {
                            if steps == n_min {
                                assert(is_terminal(tbl, run(tbl, c0, n_min)));
                            }
                        }
                        assert(Config { state: state, tape: self.tape@ } == step(tbl, here));
                        steps = steps + 1;
                        assert(run(tbl, c0, steps) == step(tbl, run(tbl, c0, (steps - 1) as nat)));
                        assert(steps <= n_min);
                    }
                },
            }
        }
    }

    /// Runs the machine from state zero until it reaches a halting
    /// transition, exactly as `execute_with_callback` does but without an
    /// observer.
    pub fn execute(&mut self) -> (r: Result<(), UndefinedTransition>)
        requires
            reaches_terminal(old(self).table(), old(self).start_config()),
        ensures
            final (self).table() == old(self).table(),
            execution_result(
                old(self).table(),
                old(self).start_config(),
                final (self).tape_view(),
                r,
            ),
    {
        self.execute_with_callback(|_t: &Tape, _a: usize, _b: usize| {})
    }
}


/// A state field could not be read as a non-negative integer.
#[derive(Debug, Clone, Copy, PartialEq, Eq, Structural)]
pub enum ParseUintError {
    /// The field is empty.
    Empty,
    /// A character of the field is not a decimal digit.
    InvalidDigit,
    /// The value does not fit in `usize`.
    PosOverflow,
}

/// The errors a program text can fail to parse with.
#[derive(Debug, Clone, Copy, PartialEq, Eq, Structural)]
pub enum ParseTu4Error {
    /// A line does not split into exactly four comma-separated fields.
    InvalidFormat,
    /// A condition or action field is not exactly one character.
    InvalidCellValue,
    /// The given target state is never defined as a source state.
    InvalidTransition(usize),
    /// A state field is not a valid non-negative integer; wraps the error
    /// that reading the field as an integer produced.
    ParseInt(ParseUintError),
}

/// True of the decimal digit characters.
pub open spec fn is_digit(c: char) -> bool {
    '0' as int <= c as int && c as int <= '9' as int
}

/// The value of one decimal digit character.
pub open spec fn digit_val(c: char) -> int {
    c as int - '0' as int
}

/// Reading decimal digits left to right onto the accumulator `acc`: a
/// non-digit character fails at once, as does a value beyond `usize`.
pub open spec fn parse_digits(s: Seq<char>, acc: int) -> Result<int, ParseUintError>
    decreases s.len(),
{
    if s.len() == 0 {
        Ok(acc)
    } else if !is_digit(s[0]) {
        Err(ParseUintError::InvalidDigit)
    } else if acc * 10 + digit_val(s[0]) > usize::MAX as int {
        Err(ParseUintError::PosOverflow)
    } else {
        parse_digits(s.drop_first(), acc * 10 + digit_val(s[0]))
    }
}

/// What reading a field as a non-negative integer yields: an optional `+`
/// sign followed by at least one decimal digit.
pub open spec fn parse_uint(s: Seq<char>) -> Result<usize, ParseUintError> {
    if s.len() == 0 {
        Err(ParseUintError::Empty)
    } else {
        let digits = if s[0] == '+' {
            s.drop_first()
        } else {
            s
        };
        if digits.len() == 0 {
            Err(ParseUintError::InvalidDigit)
        } else {
            match parse_digits(digits, 0) {
                Ok(v) => Ok(v as usize),
                Err(e) => Err(e),
            }
        }
    }
}

/// The pieces of `s` between occurrences of `sep`, in order: one piece more
/// than there are separators, empty pieces kept.
pub open spec fn split_on(s: Seq<char>, sep: char) -> Seq<Seq<char>>
    decreases s.len(),
{
    if s.len() == 0 {
        seq![Seq::<char>::empty()]
    } else {
        let prev = split_on(s.drop_last(), sep);
        if s.last() == sep {
            prev + seq![Seq::<char>::empty()]
        } else {
            prev.drop_last() + seq![prev.last().push(s.last())]
        }
    }
}

/// `s` without its leading and trailing blank-like characters.
pub open spec fn trimmed(s: Seq<char>) -> Seq<char>
    decreases s.len(),
{
    if s.len() == 0 {
        s
    } else if crate::tape::is_blank_like(s[0]) {
        trimmed(s.drop_first())
    } else if crate::tape::is_blank_like(s.last()) {
        trimmed(s.drop_last())
    } else {
        s
    }
}

/// The action that a raw action character denotes: `<` and `>` move the
/// head; a blank action with a blank condition and equal source and target
/// states halts the machine; any other character is written to the tape.
pub open spec fn action_of(opc: char, condition: char, state: usize, next: usize) -> Op {
    if opc == '<' {
        Op::Left
    } else if opc == '>' {
        Op::Right
    } else if opc == BLANK && condition == BLANK && state == next {
        Op::End
    } else {
        Op::Write(opc)
    }
}

/// What parsing one trimmed, non-blank line yields: exactly four
/// comma-separated fields, read as source state, condition symbol, action
/// character and target state, in that order.
pub open spec fn parse_line(line: Seq<char>) -> Result<Rule, ParseTu4Error> {
    let fields = split_on(line, ',');
    if fields.len() != 4 {
        Err(ParseTu4Error::InvalidFormat)
    } else {
        match parse_uint(fields[0]) {
            Err(e) => Err(ParseTu4Error::ParseInt(e)),
            Ok(state) => {
                if fields[1].len() != 1 {
                    Err(ParseTu4Error::InvalidCellValue)
                } else if fields[2].len() != 1 {
                    Err(ParseTu4Error::InvalidCellValue)
                } else {
                    match parse_uint(fields[3]) {
                        Err(e) => Err(ParseTu4Error::ParseInt(e)),
                        Ok(next) => Ok(
                            Rule {
                                state,
                                symbol: fields[1][0],
                                op: action_of(fields[2][0], fields[1][0], state, next),
                                next,
                            },
                        ),
                    }
                }
            },
        }
    }
}

/// The records of the given lines, in order: each line is trimmed, blank
/// lines are skipped, and the first bad line's error is the result.
pub open spec fn parse_records(lines: Seq<Seq<char>>) -> Result<Seq<Rule>, ParseTu4Error>
    decreases lines.len(),
{
    if lines.len() == 0 {
        Ok(Seq::<Rule>::empty())
    } else {
        match parse_records(lines.drop_last()) {
            Err(e) => Err(e),
            Ok(rs) => {
                let line = trimmed(lines.last());
                if line.len() == 0 {
                    Ok(rs)
                } else {
                    match parse_line(line) {
                        Err(e) => Err(e),
                        Ok(rule) => Ok(rs.push(rule)),
                    }
                }
            },
        }
    }
}

/// True when some record defines `state` as a source state.
pub open spec fn defines(rs: Seq<Rule>, state: usize) -> bool {
    exists|i: int| 0 <= i < rs.len() && rs[i].state == state
}

/// The first target state at or after record `i`, in record order, that no
/// record defines as a source state.
pub open spec fn first_undefined_from(rs: Seq<Rule>, i: nat) -> Option<usize>
    decreases rs.len() - i,
{
    if i >= rs.len() {
        None
    } else if !defines(rs, rs[i as int].next) {
        Some(rs[i as int].next)
    } else {
        first_undefined_from(rs, i + 1)
    }
}

/// What parsing a whole program text yields: the records of its lines, with
/// every record's target state checked to be defined as a source state.
pub open spec fn parse_rules(s: Seq<char>) -> Result<Seq<Rule>, ParseTu4Error> {
    match parse_records(split_on(s, '\n')) {
        Err(e) => Err(e),
        Ok(rs) => match first_undefined_from(rs, 0) {
            Some(st) => Err(ParseTu4Error::InvalidTransition(st)),
            None => Ok(rs),
        },
    }
}

/// The characters of a string, in order.
fn str_to_chars(s: &str) -> (v: Vec<char>)
    ensures
        v@ == s@,
{
    let n = s.unicode_len();
    let mut v: Vec<char> = Vec::new();
    let mut i: usize = 0;
    while i < n
        invariant
            i <= n,
            n == s@.len(),
            v@ == s@.take(i as int),
        decreases n - i,
    {
        v.push(s.get_char(i));
        i = i + 1;
        proof {
            assert(s@.take(i as int).drop_last() =~= s@.take(i - 1));
            assert(v@ =~= s@.take(i as int));
        }
    }
    proof {
        assert(s@.take(n as int) =~= s@);
    }
    v
}

/// Reads a field as a non-negative integer, exactly as the parser reads the
/// two state fields of a record.
pub fn parse_usize(s: &str) -> (r: Result<usize, ParseUintError>)
    ensures
        r == parse_uint(s@),
{
    let v = str_to_chars(s);
    parse_uint_chars(&v)
}

/// The value of one decimal digit character, or nothing when the character
/// is no digit.
fn digit_of(c: char) -> (r: Option<u32>)
    ensures
        match r {
            Some(d) => is_digit(c) && d == digit_val(c),
            None => !is_digit(c),
        },
{
    match c {
        '0' => Some(0),
        '1' => Some(1),
        '2' => Some(2),
        '3' => Some(3),
        '4' => Some(4),
        '5' => Some(5),
        '6' => Some(6),
        '7' => Some(7),
        '8' => Some(8),
        '9' => Some(9),
        _ => None,
    }
}

/// Reads a whole character sequence as a non-negative integer.
fn parse_uint_chars(v: &Vec<char>) -> (r: Result<usize, ParseUintError>)
    ensures
        r == parse_uint(v@),
{
    if v.len() == 0 {
        return Err(ParseUintError::Empty);
    }
    let start: usize = if v[0] == '+' {
        1
    } else {
        0
    };
    if v.len() == start {
        return Err(ParseUintError::InvalidDigit);
    }
    let ghost digits = if v@[0] == '+' {
        v@.drop_first()
    } else {
        v@
    };
    proof {
        assert(digits =~= v@.skip(start as int));
    }
    let mut acc: usize = 0;
    let mut i: usize = start;
    while i < v.len()
        invariant
            start <= i <= v@.len(),
            v@.len() > start,
            start == (if v@[0] == '+' {
                1int
            } else {
                0int
            }),
            digits == v@.skip(start as int),
            parse_uint(v@) == (match parse_digits(digits, 0) {
                Ok(val) => Ok::<usize, ParseUintError>(val as usize),
                Err(e) => Err(e),
            }),
            parse_digits(digits, 0) == parse_digits(v@.skip(i as int), acc as int),
        decreases v@.len() - i,
    {
        let c = v[i];
        proof {
            assert(v@.skip(i as int)[0] == v@[i as int]);
            assert(v@.skip(i as int).drop_first() =~= v@.skip(i + 1));
        }
        let d = match digit_of(c) {
            Some(d) => d,
            None => {
                return Err(ParseUintError::InvalidDigit);
            },
        };
        let d_us = d as usize;
        let limit = (usize::MAX - d_us) / 10;
        proof {
            vstd::arithmetic::div_mod::lemma_fundamental_div_mod(
                (usize::MAX - d_us) as int,
                10,
            );
        }
        if acc > limit {
            return Err(ParseUintError::PosOverflow);
        }
        acc = acc * 10 + d_us;
        i = i + 1;
    }
    proof {
        assert(v@.skip(v@.len() as int) =~= Seq::<char>::empty());
    }
    Ok(acc)
}

/// `v` without its leading and trailing blank-like characters.
fn trim_chars(v: &Vec<char>) -> (r: Vec<char>)
    ensures
        r@ == trimmed(v@),
{
    let mut a: usize = 0;
    proof {
        assert(v@.skip(0) =~= v@);
    }
    while a < v.len() && crate::tape::blank_like(v[a])
        invariant
            a <= v@.len(),
            trimmed(v@.skip(a as int)) == trimmed(v@),
        decreases v@.len() - a,
    {
        a = a + 1;
        proof {
            assert(v@.skip(a - 1)[0] == v@[a - 1]);
            assert(v@.skip(a - 1).drop_first() =~= v@.skip(a as int));
        }
    }
    let mut b: usize = v.len();
    proof {
        assert(v@.subrange(a as int, b as int) =~= v@.skip(a as int));
    }
    while b > a && crate::tape::blank_like(v[b - 1])
        invariant
            a <= b <= v@.len(),
            a < v@.len() ==> !crate::tape::is_blank_like(v@[a as int]),
            trimmed(v@.subrange(a as int, b as int)) == trimmed(v@),
        decreases b,
    {
        b = b - 1;
        proof {
            assert(v@.subrange(a as int, b + 1).last() == v@[b as int]);
            assert(v@.subrange(a as int, b + 1).drop_last() =~= v@.subrange(a as int, b as int));
        }
    }
    let mut out: Vec<char> = Vec::new();
    let mut i: usize = a;
    while i < b
        invariant
            a <= i <= b <= v@.len(),
            out@ == v@.subrange(a as int, i as int),
        decreases b - i,
    {
        out.push(v[i]);
        i = i + 1;
        proof {
            assert(out@ =~= v@.subrange(a as int, i as int));
        }
    }
    proof {
        let sub = v@.subrange(a as int, b as int);
        if a < b {
            assert(sub[0] == v@[a as int]);
            assert(sub.last() == v@[b - 1]);
        }
        assert(trimmed(sub) == sub);
        assert(out@ =~= sub);
    }
    out
}

/// Reads one trimmed, non-blank line as a record.
fn parse_line_chars(line: &Vec<char>) -> (r: Result<Rule, ParseTu4Error>)
    ensures
        r == parse_line(line@),
{
    let ghost fields_spec = split_on(line@, ',');
    let mut fields: Vec<Vec<char>> = Vec::new();
    let mut cur: Vec<char> = Vec::new();
    proof {
        assert(fields@.map_values(|f: Vec<char>| f@).push(cur@) =~= split_on(
            line@.take(0),
            ',',
        ));
    }
    let mut i: usize = 0;
    while i < line.len()
        invariant
            i <= line@.len(),
            fields@.map_values(|f: Vec<char>| f@).push(cur@) == split_on(
                line@.take(i as int),
                ',',
            ),
        decreases line@.len() - i,
    {
        let c = line[i];
        proof {
            assert(line@.take(i + 1).drop_last() =~= line@.take(i as int));
            assert(line@.take(i + 1).last() == line@[i as int]);
        }
        let ghost before = fields@.map_values(|f: Vec<char>| f@);
        if c == ',' {
            fields.push(cur);
            cur = Vec::new();
            proof {
                assert(fields@.map_values(|f: Vec<char>| f@) =~= before.push(
                    fields@.last()@,
                ));
                assert(fields@.map_values(|f: Vec<char>| f@).push(cur@) =~= split_on(
                    line@.take(i + 1),
                    ',',
                ));
            }
        } else {
            cur.push(c);
            proof {
                assert(fields@.map_values(|f: Vec<char>| f@).push(cur@) =~= split_on(
                    line@.take(i + 1),
                    ',',
                ));
            }
        }
        i = i + 1;
    }
    proof {
        assert(line@.take(line@.len() as int) =~= line@);
    }
    fields.push(cur);
    proof {
        assert(fields@.map_values(|f: Vec<char>| f@) =~= fields_spec);
        assert(fields@.len() == fields_spec.len());
    }
    if fields.len() != 4 {
        return Err(ParseTu4Error::InvalidFormat);
    }
    proof {
        assert(fields@.map_values(|f: Vec<char>| f@)[0] == fields@[0]@);
        assert(fields@.map_values(|f: Vec<char>| f@)[1] == fields@[1]@);
        assert(fields@.map_values(|f: Vec<char>| f@)[2] == fields@[2]@);
        assert(fields@.map_values(|f: Vec<char>| f@)[3] == fields@[3]@);
    }
    let state = match parse_uint_chars(&fields[0]) {
        Ok(n) => n,
        Err(e) => {
            return Err(ParseTu4Error::ParseInt(e));
        },
    };
    if fields[1].len() != 1 {
        return Err(ParseTu4Error::InvalidCellValue);
    }
    let condition = fields[1][0];
    if fields[2].len() != 1 {
        return Err(ParseTu4Error::InvalidCellValue);
    }
    let opc = fields[2][0];
    let next = match parse_uint_chars(&fields[3]) {
        Ok(n) => n,
        Err(e) => {
            return Err(ParseTu4Error::ParseInt(e));
        },
    };
    let op = if opc == '<' {
        Op::Left
    } else if opc == '>' {
        Op::Right
    } else if opc == BLANK && condition == BLANK && state == next {
        Op::End
    } else {
        Op::Write(opc)
    };
    Ok(Rule { state, symbol: condition, op, next })
}

/// True when some record of `rules` defines `state` as a source state.
fn defines_state(rules: &Vec<Rule>, state: usize) -> (r: bool)
    ensures
        r == defines(rules@, state),
{
    let mut i: usize = 0;
    while i < rules.len()
        invariant
            i <= rules@.len(),
            forall|j: int| 0 <= j < i ==> rules@[j].state != state,
        decreases rules@.len() - i,
    {
        if rules[i].state == state {
            return true;
        }
        i = i + 1;
    }
    false
}


impl Machine {
    /// Parses a program text into a machine with a fresh tape: each non-blank
    /// line, after trimming, is read as a record, a later record overwriting
    /// an earlier one with the same (state, condition) key, and every target
    /// state is checked to be defined as a source state.
    pub fn from_str(s: &str) -> (r: Result<Machine, ParseTu4Error>)
        ensures
            match r {
                Ok(m) => parse_rules(s@) is Ok && m.table() == rules_table(parse_rules(s@)->Ok_0)
                    && m.tape_view() == TapeView::empty(),
                Err(e) => parse_rules(s@) == Err::<Seq<Rule>, ParseTu4Error>(e),
            },
    {
        let chars = str_to_chars(s);
        let mut rules: Vec<Rule> = Vec::new();
        let mut line: Vec<char> = Vec::new();
        let mut err: Option<ParseTu4Error> = None;
        let ghost mut done: Seq<Seq<char>> = Seq::empty();
        proof {
            assert(done.push(line@) =~= split_on(chars@.take(0), '\n'));
        }
        let mut i: usize = 0;
        while i < chars.len()
            invariant
                i <= chars@.len(),
                chars@ == s@,
                done.push(line@) == split_on(chars@.take(i as int), '\n'),
                match err {
                    None => parse_records(done) == Ok::<Seq<Rule>, ParseTu4Error>(rules@),
                    Some(e) => parse_records(done) == Err::<Seq<Rule>, ParseTu4Error>(e),
                },
            decreases chars@.len() - i,
        {
            let c = chars[i];
            proof {
                assert(chars@.take(i + 1).drop_last() =~= chars@.take(i as int));
                assert(chars@.take(i + 1).last() == chars@[i as int]);
            }
            if c == '\n' {
                let ghost old_done = done;
                let ghost old_rules = rules@;
                if err.is_none() {
                    let t = trim_chars(&line);
                    if t.len() > 0 {
                        match parse_line_chars(&t) {
                            Ok(rule) => {
                                rules.push(rule);
                            },
                            Err(e) => {
                                err = Some(e);
                            },
                        }
                    }
                }
                proof {
                    done = done.push(line@);
                    assert(done.drop_last() =~= old_done);
                    assert(done.last() == line@);
                }
                line = Vec::new();
                proof {
                    assert(done.push(line@) =~= split_on(chars@.take(i + 1), '\n'));
                }
            } else {
                line.push(c);
                proof {
                    assert(done.push(line@) =~= split_on(chars@.take(i + 1), '\n'));
                }
            }
            i = i + 1;
        }
        proof {
            assert(chars@.take(chars@.len() as int) =~= chars@);
        }
        let ghost old_done = done;
        let ghost old_rules = rules@;
        if err.is_none() {
            let t = trim_chars(&line);
            if t.len() > 0 {
                match parse_line_chars(&t) {
                    Ok(rule) => {
                        rules.push(rule);
                    },
                    Err(e) => {
                        err = Some(e);
                    },
                }
            }
        }
        proof {
            done = done.push(line@);
            assert(done.drop_last() =~= old_done);
            assert(done.last() == line@);
            assert(done =~= split_on(s@, '\n'));
        }
        if let Some(e) = err {
            return Err(e);
        }
        let mut k: usize = 0;
        while k < rules.len()
            invariant
                k <= rules@.len(),
                parse_records(split_on(s@, '\n')) == Ok::<Seq<Rule>, ParseTu4Error>(rules@),
                first_undefined_from(rules@, 0) == first_undefined_from(rules@, k as nat),
            decreases rules@.len() - k,
        {
            let target = rules[k].next;
            if !defines_state(&rules, target) {
                proof {
                    assert(first_undefined_from(rules@, k as nat) == Some(target));
                }
                return Err(ParseTu4Error::InvalidTransition(target));
            }
            k = k + 1;
        }
        proof {
            assert(first_undefined_from(rules@, rules@.len() as nat) is None);
        }
        Ok(Machine { rules, tape: Tape::new() })
    }
}

impl core::str::FromStr for Machine {
    type Err = ParseTu4Error;

    /// Same as `Machine::from_str`.
    fn from_str(s: &str) -> Result<Machine, ParseTu4Error> {
        Machine::from_str(s)
    }
}


/// Writing an input on a tape with nothing right of the head extends the
/// left-hand side with the input and leaves the head one cell past it.
proof fn lemma_input_applied_flat(t: TapeView, s: Seq<char>)
    requires
        t.right.len() == 0,
    ensures
        input_applied(t, s).left == t.left + s,
        input_applied(t, s).current == (if s.len() > 0 {
            BLANK
        } else {
            t.current
        }),
        input_applied(t, s).right == Seq::<char>::empty(),
    decreases s.len(),
{
    if s.len() == 0 {
        assert(t.left + s =~= t.left);
        assert(input_applied(t, s).right =~= Seq::<char>::empty());
    } else {
        let t1 = t.written(s[0]).shifted_right();
        assert(t1.right =~= Seq::<char>::empty());
        lemma_input_applied_flat(t1, s.drop_first());
        assert((t.left + seq![s[0]]) + s.drop_first() =~= t.left + s);
    }
}

/// After an input is written on a fresh tape, the tape holds exactly the
/// input with the head one cell past its last character; it renders as the
/// input's display characters followed by one blank placeholder, and when no
/// input character is blank-like, as the input itself followed by one blank
/// placeholder.
pub proof fn lemma_set_input_on_fresh_tape(s: Seq<char>)
    ensures
        input_applied(TapeView::empty(), s).left == s,
        input_applied(TapeView::empty(), s).current == BLANK,
        input_applied(TapeView::empty(), s).right == Seq::<char>::empty(),
        input_applied(TapeView::empty(), s).rendered() == s.map_values(
            |c: char| crate::tape::display_char(c),
        ) + seq![crate::tape::BLANK_DISPLAY],
        (forall|i: int| 0 <= i < s.len() ==> !crate::tape::is_blank_like(s[i]))
            ==> input_applied(TapeView::empty(), s).rendered() == s + seq![
            crate::tape::BLANK_DISPLAY,
        ],
{
    lemma_input_applied_flat(TapeView::empty(), s);
    let u = input_applied(TapeView::empty(), s);
    assert(u.left =~= s);
    assert(u.cells() =~= s + seq![BLANK]);
    assert(u.rendered() =~= s.map_values(|c: char| crate::tape::display_char(c)) + seq![
        crate::tape::BLANK_DISPLAY,
    ]);
    if forall|i: int| 0 <= i < s.len() ==> !crate::tape::is_blank_like(s[i]) {
        assert(s.map_values(|c: char| crate::tape::display_char(c)) =~= s);
    }
}

/// A line that does not split into exactly four comma-separated fields is
/// rejected as `InvalidFormat`.
pub proof fn lemma_wrong_field_count(line: Seq<char>)
    requires
        split_on(line, ',').len() != 4,
    ensures
        parse_line(line) == Err::<Rule, ParseTu4Error>(ParseTu4Error::InvalidFormat),
{
}

/// A condition or action field that is not exactly one character is rejected
/// as `InvalidCellValue` (once the source state itself has been read).
pub proof fn lemma_bad_cell_field(line: Seq<char>)
    requires
        split_on(line, ',').len() == 4,
        parse_uint(split_on(line, ',')[0]) is Ok,
        split_on(line, ',')[1].len() != 1 || split_on(line, ',')[2].len() != 1,
    ensures
        parse_line(line) == Err::<Rule, ParseTu4Error>(ParseTu4Error::InvalidCellValue),
{
}

/// A source-state field that is not a non-negative integer is rejected with
/// exactly the wrapped error of reading that field as an integer.
pub proof fn lemma_bad_source_state(line: Seq<char>, e: ParseUintError)
    requires
        split_on(line, ',').len() == 4,
        parse_uint(split_on(line, ',')[0]) == Err::<usize, ParseUintError>(e),
    ensures
        parse_line(line) == Err::<Rule, ParseTu4Error>(ParseTu4Error::ParseInt(e)),
{
}

/// A target-state field that is not a non-negative integer is rejected with
/// exactly the wrapped error of reading that field as an integer.
pub proof fn lemma_bad_target_state(line: Seq<char>, e: ParseUintError)
    requires
        split_on(line, ',').len() == 4,
        parse_uint(split_on(line, ',')[0]) is Ok,
        split_on(line, ',')[1].len() == 1,
        split_on(line, ',')[2].len() == 1,
        parse_uint(split_on(line, ',')[3]) == Err::<usize, ParseUintError>(e),
    ensures
        parse_line(line) == Err::<Rule, ParseTu4Error>(ParseTu4Error::ParseInt(e)),
{
}

/// A prefix of lines each of which is blank or parses yields records.
proof fn lemma_records_prefix_ok(lines: Seq<Seq<char>>, k: int)
    requires
        0 <= k <= lines.len(),
        forall|j: int|
            0 <= j < k ==> trimmed(#[trigger] lines[j]).len() == 0 || parse_line(
                trimmed(lines[j]),
            ) is Ok,
    ensures
        parse_records(lines.take(k)) is Ok,
    decreases k,
{
    if k > 0 {
        lemma_records_prefix_ok(lines, k - 1);
        assert(lines.take(k).drop_last() =~= lines.take(k - 1));
        assert(lines.take(k).last() == lines[k - 1]);
    } else {
        assert(lines.take(0) =~= Seq::<Seq<char>>::empty());
    }
}

/// Once a prefix of the lines fails, the whole text fails the same way.
proof fn lemma_records_err_stable(lines: Seq<Seq<char>>, m: int)
    requires
        0 <= m <= lines.len(),
        parse_records(lines.take(m)) is Err,
    ensures
        parse_records(lines) == parse_records(lines.take(m)),
    decreases lines.len() - m,
{
    if m < lines.len() {
        assert(lines.take(m + 1).drop_last() =~= lines.take(m));
        lemma_records_err_stable(lines, m + 1);
    } else {
        assert(lines.take(m) =~= lines);
    }
}

/// The first bad line decides the outcome: when every earlier line is blank
/// or parses, and line `k` is non-blank and fails, the whole program text
/// fails with exactly that line's error.
pub proof fn lemma_first_bad_line(s: Seq<char>, k: int, e: ParseTu4Error)
    requires
        0 <= k < split_on(s, '\n').len(),
        forall|j: int|
            0 <= j < k ==> trimmed(#[trigger] split_on(s, '\n')[j]).len() == 0 || parse_line(
                trimmed(split_on(s, '\n')[j]),
            ) is Ok,
        trimmed(split_on(s, '\n')[k]).len() > 0,
        parse_line(trimmed(split_on(s, '\n')[k])) == Err::<Rule, ParseTu4Error>(e),
    ensures
        parse_rules(s) == Err::<Seq<Rule>, ParseTu4Error>(e),
{
    let lines = split_on(s, '\n');
    lemma_records_prefix_ok(lines, k);
    assert(lines.take(k + 1).drop_last() =~= lines.take(k));
    assert(lines.take(k + 1).last() == lines[k]);
    assert(parse_records(lines.take(k + 1)) == Err::<Seq<Rule>, ParseTu4Error>(e));
    lemma_records_err_stable(lines, k + 1);
}

/// Scanning from `j` reports an undefined target whenever one exists at or
/// after `j`.
proof fn lemma_first_undefined_finds(rs: Seq<Rule>, j: nat, i: int)
    requires
        j <= i < rs.len(),
        !defines(rs, rs[i].next),
    ensures
        first_undefined_from(rs, j) is Some,
    decreases i - j,
{
    if !defines(rs, rs[j as int].next) {
    } else {
        lemma_first_undefined_finds(rs, j + 1, i);
    }
}

/// A state the scan reports is the target of some record at or after `j` and
/// is defined by no record.
proof fn lemma_first_undefined_sound(rs: Seq<Rule>, j: nat, st: usize)
    requires
        first_undefined_from(rs, j) == Some(st),
    ensures
        exists|i: int| j <= i < rs.len() && rs[i].next == st && !defines(rs, #[trigger] rs[i].next),
    decreases rs.len() - j,
{
    if j < rs.len() && !defines(rs, rs[j as int].next) {
        assert(rs[j as int].next == st && !defines(rs, rs[j as int].next));
    } else {
        lemma_first_undefined_sound(rs, j + 1, st);
    }
}

/// A well-formed program whose records reference a target state that no
/// record defines fails with `InvalidTransition`, naming a target state that
/// is indeed referenced and undefined.
pub proof fn lemma_undefined_target_rejected(s: Seq<char>, rs: Seq<Rule>)
    requires
        parse_records(split_on(s, '\n')) == Ok::<Seq<Rule>, ParseTu4Error>(rs),
        exists|i: int| 0 <= i < rs.len() && !defines(rs, #[trigger] rs[i].next),
    ensures
        exists|i: int|
            0 <= i < rs.len() && !defines(rs, #[trigger] rs[i].next) && parse_rules(s) == Err::<
                Seq<Rule>,
                ParseTu4Error,
            >(ParseTu4Error::InvalidTransition(rs[i].next)),
{
    let i = choose|i: int| 0 <= i < rs.len() && !defines(rs, #[trigger] rs[i].next);
    lemma_first_undefined_finds(rs, 0, i);
    let st = first_undefined_from(rs, 0)->0;
    lemma_first_undefined_sound(rs, 0, st);
    let w = choose|w: int|
        0 <= w < rs.len() && rs[w].next == st && !defines(rs, #[trigger] rs[w].next);
    assert(parse_rules(s) == Err::<Seq<Rule>, ParseTu4Error>(
        ParseTu4Error::InvalidTransition(rs[w].next),
    ));
}

/// Scanning reports nothing when every record's target state is defined.
proof fn lemma_first_undefined_none(rs: Seq<Rule>, j: nat)
    requires
        forall|i: int| 0 <= i < rs.len() ==> defines(rs, #[trigger] rs[i].next),
        j <= rs.len(),
    ensures
        first_undefined_from(rs, j) is None,
    decreases rs.len() - j,
{
    if j < rs.len() {
        lemma_first_undefined_none(rs, j + 1);
    }
}

/// A well-formed program whose every target state is defined parses to
/// exactly its records.
pub proof fn lemma_all_targets_defined(s: Seq<char>, rs: Seq<Rule>)
    requires
        parse_records(split_on(s, '\n')) == Ok::<Seq<Rule>, ParseTu4Error>(rs),
        forall|i: int| 0 <= i < rs.len() ==> defines(rs, #[trigger] rs[i].next),
    ensures
        parse_rules(s) == Ok::<Seq<Rule>, ParseTu4Error>(rs),
{
    lemma_first_undefined_none(rs, 0);
}



/// A terminal configuration never changes again: every further step leaves
/// it as it is.
proof fn lemma_terminal_stable(t: Map<(usize, char), (Op, usize)>, c: Config, n: nat)
    requires
        is_terminal(t, c),
    ensures
        run(t, c, n) == c,
    decreases n,
{
    if n > 0 {
        lemma_terminal_stable(t, c, (n - 1) as nat);
    }
}

/// Splitting a run: the configuration after `m + k` steps is the
/// configuration after `k` steps from the one after `m` steps.
proof fn lemma_run_add(t: Map<(usize, char), (Op, usize)>, c: Config, m: nat, k: nat)
    ensures
        run(t, c, m + k) == run(t, run(t, c, m), k),
    decreases k,
{
    if k > 0 {
        lemma_run_add(t, c, m, (k - 1) as nat);
    }
}

/// A run's outcome is deterministic: a given table and start configuration
/// admit exactly one final tape and one result.
pub proof fn lemma_execution_deterministic(
    t: Map<(usize, char), (Op, usize)>,
    c0: Config,
    tape1: TapeView,
    r1: Result<(), UndefinedTransition>,
    tape2: TapeView,
    r2: Result<(), UndefinedTransition>,
)
    requires
        execution_result(t, c0, tape1, r1),
        execution_result(t, c0, tape2, r2),
    ensures
        tape1 == tape2,
        r1 == r2,
{
    let n1 = choose|n: nat|
        {
            let cf = #[trigger] run(t, c0, n);
            &&& is_terminal(t, cf)
            &&& tape1 == cf.tape
            &&& match r1 {
                Ok(_) => is_halting(t, cf),
                Err(e) => is_stuck(t, cf) && e.state == cf.state && e.symbol == cf.tape.current,
            }
        };
    let n2 = choose|n: nat|
        {
            let cf = #[trigger] run(t, c0, n);
            &&& is_terminal(t, cf)
            &&& tape2 == cf.tape
            &&& match r2 {
                Ok(_) => is_halting(t, cf),
                Err(e) => is_stuck(t, cf) && e.state == cf.state && e.symbol == cf.tape.current,
            }
        };
    if n1 <= n2 {
        lemma_run_add(t, c0, n1, (n2 - n1) as nat);
        lemma_terminal_stable(t, run(t, c0, n1), (n2 - n1) as nat);
        assert(run(t, c0, n2) == run(t, c0, n1));
    } else {
        lemma_run_add(t, c0, n2, (n1 - n2) as nat);
        lemma_terminal_stable(t, run(t, c0, n2), (n1 - n2) as nat);
        assert(run(t, c0, n1) == run(t, c0, n2));
    }
    let cf = run(t, c0, n1);
    match (r1, r2) {
        (Ok(u1), Ok(u2)) => {
            assert(u1 == u2);
        },
        (Ok(_), Err(_)) => {
            assert(is_halting(t, cf) && is_stuck(t, cf));
        },
        (Err(_), Ok(_)) => {
            assert(is_halting(t, cf) && is_stuck(t, cf));
        },
        (Err(e1), Err(e2)) => {
            assert(e1.state == cf.state && e1.symbol == cf.tape.current);
            assert(e2.state == cf.state && e2.symbol == cf.tape.current);
            assert(e1 == e2);
        },
    }
}

} // verus!
