//! Parsing: tokens to a linear instruction program.
//!
//! Runs of identical pointer/value tokens collapse into one counted
//! instruction (at most 255 per instruction); each bracket pair gets an
//! identifier, assigned in the order the opening brackets appear, and two
//! side maps record the instruction index of each pair's two ends.

use crate::lexer::Token;
use std::collections::HashMap;
use vstd::prelude::*;

verus! {

broadcast use vstd::std_specs::hash::group_hash_axioms;

/// One executable operation. Counted operations carry a count in `1..=255`.
#[derive(Debug, PartialEq, Eq, Structural, Clone, Copy)]
pub enum Instruction {
    Add(u8),
    Sub(u8),
    AddPtr(u8),
    SubPtr(u8),
    Write,
    Read,
    JumpToLBracket(usize),
    JumpToRBracket(usize),
}

/// Parsing failure: a stray `]`, or an unmatched `[` left at end of input.
#[derive(Debug, PartialEq, Eq, Structural, Clone, Copy)]
pub enum ParseError {
    UnclosedBracket,
}

/// A parsed program: the instructions, and for each bracket-pair identifier
/// the instruction index of the pair's opening (`lbr_pos`) and closing
/// (`rbr_pos`) end.
pub struct Program {
    pub insts: Vec<Instruction>,
    pub lbr_pos: HashMap<usize, usize>,
    pub rbr_pos: HashMap<usize, usize>,
}

/// The mathematical content of a `Program`.
pub struct ProgModel {
    pub insts: Seq<Instruction>,
    pub lbr: Map<usize, usize>,
    pub rbr: Map<usize, usize>,
}

impl View for Program {
    type V = ProgModel;

    open spec fn view(&self) -> ProgModel {
        ProgModel { insts: self.insts@, lbr: self.lbr_pos@, rbr: self.rbr_pos@ }
    }
}

/// Does `t` collapse by run length (a pointer or value token)?
pub open spec fn op_token(t: Token) -> bool {
    t is Plus || t is Minus || t is Greater || t is Less
}

/// The counted instruction a run of `n` tokens `t` becomes.
pub open spec fn op_inst(t: Token, n: u8) -> Instruction {
    match t {
        Token::Plus => Instruction::Add(n),
        Token::Minus => Instruction::Sub(n),
        Token::Greater => Instruction::SubPtr(n),
        Token::Less => Instruction::AddPtr(n),
        _ => Instruction::Write,
    }
}

/// Length of the run of tokens equal to `t` starting at `pos`, capped at `cap`.
pub open spec fn run_count(toks: Seq<Token>, pos: int, t: Token, cap: int) -> int
    decreases toks.len() - pos,
{
    if 0 <= pos && pos < toks.len() && toks[pos] == t && cap > 0 {
        1 + run_count(toks, pos + 1, t, cap - 1)
    } else {
        0
    }
}

pub proof fn lemma_run_count_bounds(toks: Seq<Token>, pos: int, t: Token, cap: int)
    requires
        0 <= pos <= toks.len(),
        0 <= cap,
    ensures
        0 <= run_count(toks, pos, t, cap) <= cap,
        pos + run_count(toks, pos, t, cap) <= toks.len(),
        forall|i: int| pos <= i < pos + run_count(toks, pos, t, cap) ==> toks[i] == t,
    decreases toks.len() - pos,
{
    if 0 <= pos && pos < toks.len() && toks[pos] == t && cap > 0 {
        lemma_run_count_bounds(toks, pos + 1, t, cap - 1);
    }
}

/// The parser's running state: instructions so far, the two bracket maps,
/// the stack of still-open bracket identifiers, and the next fresh identifier.
pub struct ParseState {
    pub insts: Seq<Instruction>,
    pub lbr: Map<usize, usize>,
    pub rbr: Map<usize, usize>,
    pub stack: Seq<usize>,
    pub next_id: usize,
}

pub open spec fn init_parse_state() -> ParseState {
    ParseState {
        insts: Seq::empty(),
        lbr: Map::empty(),
        rbr: Map::empty(),
        stack: Seq::empty(),
        next_id: 0,
    }
}

/// What parsing yields from token offset `pos` on, in state `st`.
pub open spec fn parse_from(toks: Seq<Token>, pos: int, st: ParseState) -> Result<
    ProgModel,
    ParseError,
>
    decreases toks.len() - pos,
    via parse_from_decreases
{
    if pos < 0 || pos >= toks.len() {
        if st.stack.len() == 0 {
            Ok(ProgModel { insts: st.insts, lbr: st.lbr, rbr: st.rbr })
        } else {
            Err(ParseError::UnclosedBracket)
        }
    } else {
        let t = toks[pos];
        if op_token(t) {
            let k = run_count(toks, pos, t, 255);
            parse_from(
                toks,
                pos + k,
                ParseState { insts: st.insts.push(op_inst(t, k as u8)), ..st },
            )
        } else if t is Period {
            parse_from(
                toks,
                pos + 1,
                ParseState { insts: st.insts.push(Instruction::Write), ..st },
            )
        } else if t is Comma {
            parse_from(toks, pos + 1, ParseState { insts: st.insts.push(Instruction::Read), ..st })
        } else if t is LBracket {
            parse_from(
                toks,
                pos + 1,
                ParseState {
                    insts: st.insts.push(Instruction::JumpToRBracket(st.next_id)),
                    lbr: st.lbr.insert(st.next_id, st.insts.len() as usize),
                    stack: st.stack.push(st.next_id),
                    next_id: (st.next_id + 1) as usize,
                    ..st
                },
            )
        } else {
            if st.stack.len() == 0 {
                Err(ParseError::UnclosedBracket)
            } else {
                let id = st.stack.last();
                parse_from(
                    toks,
                    pos + 1,
                    ParseState {
                        insts: st.insts.push(Instruction::JumpToLBracket(id)),
                        rbr: st.rbr.insert(id, st.insts.len() as usize),
                        stack: st.stack.drop_last(),
                        ..st
                    },
                )
            }
        }
    }
}

#[via_fn]
proof fn parse_from_decreases(toks: Seq<Token>, pos: int, st: ParseState) {
    if 0 <= pos < toks.len() {
        let t = toks[pos];
        lemma_run_count_bounds(toks, pos, t, 255);
        lemma_run_count_bounds(toks, pos + 1, t, 254);
        assert(run_count(toks, pos, t, 255) == 1 + run_count(toks, pos + 1, t, 254));
    }
}

/// What parsing yields on the whole token sequence.
pub open spec fn parse_spec(toks: Seq<Token>) -> Result<ProgModel, ParseError> {
    parse_from(toks, 0, init_parse_state())
}

/// The instruction at index `i` is consistent with the bracket maps: a
/// counted operation carries a positive count, and each jump's identifier is
/// recorded in both maps, the opening end strictly before the closing end,
/// with the partner instruction at the recorded partner index.
pub open spec fn inst_wf(m: ProgModel, i: int) -> bool {
    match m.insts[i] {
        Instruction::Add(n) => n >= 1,
        Instruction::Sub(n) => n >= 1,
        Instruction::AddPtr(n) => n >= 1,
        Instruction::SubPtr(n) => n >= 1,
        Instruction::Write => true,
        Instruction::Read => true,
        Instruction::JumpToRBracket(id) => {
            &&& m.lbr.contains_key(id)
            &&& m.lbr[id] == i
            &&& m.rbr.contains_key(id)
            &&& i < m.rbr[id] < m.insts.len()
            &&& m.insts[m.rbr[id] as int] == Instruction::JumpToLBracket(id)
        },
        Instruction::JumpToLBracket(id) => {
            &&& m.rbr.contains_key(id)
            &&& m.rbr[id] == i
            &&& m.lbr.contains_key(id)
            &&& m.lbr[id] < i
            &&& m.insts[m.lbr[id] as int] == Instruction::JumpToRBracket(id)
        },
    }
}

/// A well-formed program: every instruction is consistent, and every
/// identifier in the bracket maps stands at the recorded instruction index.
pub open spec fn prog_wf(m: ProgModel) -> bool {
    &&& forall|i: int| 0 <= i < m.insts.len() ==> #[trigger] inst_wf(m, i)
    &&& forall|id: usize| #[trigger]
        m.lbr.contains_key(id) ==> m.lbr[id] < m.insts.len() && m.insts[m.lbr[id] as int]
            == Instruction::JumpToRBracket(id)
    &&& forall|id: usize| #[trigger]
        m.rbr.contains_key(id) ==> m.rbr[id] < m.insts.len() && m.insts[m.rbr[id] as int]
            == Instruction::JumpToLBracket(id)
}

/// As `inst_wf`, but while brackets are still open: a jump to a closing end
/// whose pair is still on the stack has no closing entry yet.
pub open spec fn partial_inst_wf(st: ParseState, i: int) -> bool {
    match st.insts[i] {
        Instruction::Add(n) => n >= 1,
        Instruction::Sub(n) => n >= 1,
        Instruction::AddPtr(n) => n >= 1,
        Instruction::SubPtr(n) => n >= 1,
        Instruction::Write => true,
        Instruction::Read => true,
        Instruction::JumpToRBracket(id) => {
            &&& id < st.next_id
            &&& st.lbr.contains_key(id)
            &&& st.lbr[id] == i
            &&& (st.stack.contains(id) || (st.rbr.contains_key(id) && i < st.rbr[id]
                < st.insts.len() && st.insts[st.rbr[id] as int] == Instruction::JumpToLBracket(
                id,
            )))
        },
        Instruction::JumpToLBracket(id) => {
            &&& id < st.next_id
            &&& st.rbr.contains_key(id)
            &&& st.rbr[id] == i
            &&& st.lbr.contains_key(id)
            &&& st.lbr[id] < i
            &&& st.insts[st.lbr[id] as int] == Instruction::JumpToRBracket(id)
            &&& !st.stack.contains(id)
        },
    }
}

/// The still-open bracket at stack slot `j` has an opening entry pointing at
/// its jump instruction, and no closing entry yet.
pub open spec fn stack_entry_wf(st: ParseState, j: int) -> bool {
    let id = st.stack[j];
    &&& id < st.next_id
    &&& st.lbr.contains_key(id)
    &&& st.lbr[id] < st.insts.len()
    &&& st.insts[st.lbr[id] as int] == Instruction::JumpToRBracket(id)
    &&& !st.rbr.contains_key(id)
}

/// Everything the parser keeps true of its state between tokens.
pub open spec fn parse_state_wf(st: ParseState) -> bool {
    &&& forall|i: int| 0 <= i < st.insts.len() ==> #[trigger] partial_inst_wf(st, i)
    &&& forall|j: int| 0 <= j < st.stack.len() ==> #[trigger] stack_entry_wf(st, j)
    &&& forall|j: int, k: int| 0 <= j < k < st.stack.len() ==> st.stack[j] < st.stack[k]
    &&& forall|id: usize| #[trigger] st.lbr.contains_key(id) <==> id < st.next_id
    &&& forall|id: usize| #[trigger] st.rbr.contains_key(id) ==> id < st.next_id
    &&& forall|id: usize| #[trigger]
        st.lbr.contains_key(id) ==> st.lbr[id] < st.insts.len() && st.insts[st.lbr[id] as int]
            == Instruction::JumpToRBracket(id)
    &&& forall|id: usize| #[trigger]
        st.rbr.contains_key(id) ==> st.rbr[id] < st.insts.len() && st.insts[st.rbr[id] as int]
            == Instruction::JumpToLBracket(id)
}

/// From a healthy intermediate state, a successful parse yields a
/// well-formed program.
pub proof fn lemma_parse_from_wf(toks: Seq<Token>, pos: int, st: ParseState)
    requires
        0 <= pos <= toks.len(),
        parse_state_wf(st),
        st.insts.len() + (toks.len() - pos) <= usize::MAX,
        st.next_id + (toks.len() - pos) <= usize::MAX,
    ensures
        parse_from(toks, pos, st) matches Ok(m) ==> prog_wf(m),
    decreases toks.len() - pos,
{
    if pos >= toks.len() {
        if st.stack.len() == 0 {
            let m = ProgModel { insts: st.insts, lbr: st.lbr, rbr: st.rbr };
            assert forall|i: int| 0 <= i < m.insts.len() implies #[trigger] inst_wf(m, i) by {
                assert(partial_inst_wf(st, i));
            }
        }
    } else {
        let t = toks[pos];
        if op_token(t) {
            let k = run_count(toks, pos, t, 255);
            lemma_run_count_bounds(toks, pos, t, 255);
            lemma_run_count_bounds(toks, pos + 1, t, 254);
            let st2 = ParseState { insts: st.insts.push(op_inst(t, k as u8)), ..st };
            assert(parse_state_wf(st2)) by {
                lemma_push_keeps_state_wf(st, op_inst(t, k as u8));
            }
            lemma_parse_from_wf(toks, pos + k, st2);
        } else if t is Period {
            let st2 = ParseState { insts: st.insts.push(Instruction::Write), ..st };
            lemma_push_keeps_state_wf(st, Instruction::Write);
            lemma_parse_from_wf(toks, pos + 1, st2);
        } else if t is Comma {
            let st2 = ParseState { insts: st.insts.push(Instruction::Read), ..st };
            lemma_push_keeps_state_wf(st, Instruction::Read);
            lemma_parse_from_wf(toks, pos + 1, st2);
        } else if t is LBracket {
            let st2 = ParseState {
                insts: st.insts.push(Instruction::JumpToRBracket(st.next_id)),
                lbr: st.lbr.insert(st.next_id, st.insts.len() as usize),
                stack: st.stack.push(st.next_id),
                next_id: (st.next_id + 1) as usize,
                ..st
            };
            assert(parse_state_wf(st2)) by {
                assert(st2.stack[st.stack.len() as int] == st.next_id);
                assert(st2.stack.contains(st.next_id));
                assert forall|x: usize| #[trigger]
                    st.stack.contains(x) implies st2.stack.contains(x) by {
                    let j = choose|j: int| 0 <= j < st.stack.len() && st.stack[j] == x;
                    assert(st2.stack[j] == x);
                }
                assert forall|x: usize| #[trigger]
                    st2.stack.contains(x) implies st.stack.contains(x) || x == st.next_id by {
                    let j = choose|j: int| 0 <= j < st2.stack.len() && st2.stack[j] == x;
                    if j < st.stack.len() {
                        assert(st.stack[j] == x);
                    }
                }
                assert forall|i: int| 0 <= i < st2.insts.len() implies #[trigger] partial_inst_wf(
                    st2,
                    i,
                ) by {
                    if i < st.insts.len() {
                        assert(partial_inst_wf(st, i));
                        assert(st2.insts[i] == st.insts[i]);
                    } else {
                        assert(st2.insts[i] == Instruction::JumpToRBracket(st.next_id));
                    }
                }
                assert forall|j: int| 0 <= j < st2.stack.len() implies #[trigger] stack_entry_wf(
                    st2,
                    j,
                ) by {
                    if j < st.stack.len() {
                        assert(stack_entry_wf(st, j));
                        assert(st2.stack[j] == st.stack[j]);
                    } else {
                        assert(st2.stack[j] == st.next_id);
                        assert(st2.insts[st.insts.len() as int] == Instruction::JumpToRBracket(
                            st.next_id,
                        ));
                    }
                }
                assert forall|j: int, k: int|
                    0 <= j < k < st2.stack.len() implies st2.stack[j] < st2.stack[k] by {
                    assert(st2.stack[j] == st.stack[j]);
                    assert(stack_entry_wf(st, j));
                    if k < st.stack.len() {
                        assert(st2.stack[k] == st.stack[k]);
                    } else {
                        assert(st2.stack[k] == st.next_id);
                    }
                }
                assert forall|id: usize|
                    #![trigger st2.lbr.contains_key(id)]
                    (st2.lbr.contains_key(id) <==> id < st2.next_id) by {
                    if id != st.next_id {
                        assert(st2.lbr.contains_key(id) <==> st.lbr.contains_key(id));
                    }
                }
                assert forall|id: usize| #[trigger]
                    st2.lbr.contains_key(id) implies st2.lbr[id] < st2.insts.len()
                    && st2.insts[st2.lbr[id] as int] == Instruction::JumpToRBracket(id) by {
                    if id == st.next_id {
                        assert(st2.lbr[id] == st.insts.len());
                        assert(st2.insts[st.insts.len() as int] == Instruction::JumpToRBracket(
                            id,
                        ));
                    } else {
                        assert(st.lbr.contains_key(id));
                        assert(st2.lbr[id] == st.lbr[id]);
                        assert(st2.insts[st.lbr[id] as int] == st.insts[st.lbr[id] as int]);
                    }
                }
                assert forall|id: usize| #[trigger]
                    st2.rbr.contains_key(id) implies id < st2.next_id && st2.rbr[id]
                    < st2.insts.len() && st2.insts[st2.rbr[id] as int]
                    == Instruction::JumpToLBracket(id) by {
                    assert(st.rbr.contains_key(id));
                    assert(st2.insts[st.rbr[id] as int] == st.insts[st.rbr[id] as int]);
                }
            }
            lemma_parse_from_wf(toks, pos + 1, st2);
        } else if t is RBracket && st.stack.len() > 0 {
            let id = st.stack.last();
            let st2 = ParseState {
                insts: st.insts.push(Instruction::JumpToLBracket(id)),
                rbr: st.rbr.insert(id, st.insts.len() as usize),
                stack: st.stack.drop_last(),
                ..st
            };
            assert(stack_entry_wf(st, st.stack.len() - 1));
            assert(parse_state_wf(st2)) by {
                assert forall|x: usize| #[trigger]
                    st2.stack.contains(x) implies st.stack.contains(x) && x != id by {
                    let j = choose|j: int| 0 <= j < st2.stack.len() && st2.stack[j] == x;
                    assert(st.stack[j] == x);
                    assert(st.stack[j] < st.stack[st.stack.len() - 1]);
                }
                assert forall|i: int| 0 <= i < st2.insts.len() implies #[trigger] partial_inst_wf(
                    st2,
                    i,
                ) by {
                    if i < st.insts.len() {
                        assert(partial_inst_wf(st, i));
                        assert(st2.insts[i] == st.insts[i]);
                        match st.insts[i] {
                            Instruction::JumpToRBracket(id2) => {
                                if st.stack.contains(id2) && id2 == id {
                                    assert(st.lbr[id] == i);
                                    assert(st2.rbr[id] == st.insts.len());
                                } else if st.stack.contains(id2) {
                                    let j = choose|j: int|
                                        0 <= j < st.stack.len() && st.stack[j] == id2;
                                    if j < st.stack.len() - 1 {
                                        assert(st2.stack[j] == id2);
                                        assert(st2.stack.contains(id2));
                                    }
                                }
                            },
                            _ => {},
                        }
                    } else {
                        assert(st2.insts[i] == Instruction::JumpToLBracket(id));
                    }
                }
                assert forall|j: int| 0 <= j < st2.stack.len() implies #[trigger] stack_entry_wf(
                    st2,
                    j,
                ) by {
                    assert(stack_entry_wf(st, j));
                    assert(st2.stack[j] == st.stack[j]);
                    assert(st.stack[j] < st.stack[st.stack.len() - 1]);
                }
            }
            lemma_parse_from_wf(toks, pos + 1, st2);
        }
    }
}

/// Pushing a non-jump instruction disturbs nothing the parser keeps true.
proof fn lemma_push_keeps_state_wf(st: ParseState, inst: Instruction)
    requires
        parse_state_wf(st),
        inst matches Instruction::Add(n) ==> n >= 1,
        inst matches Instruction::Sub(n) ==> n >= 1,
        inst matches Instruction::AddPtr(n) ==> n >= 1,
        inst matches Instruction::SubPtr(n) ==> n >= 1,
        !(inst is JumpToLBracket),
        !(inst is JumpToRBracket),
    ensures
        parse_state_wf(ParseState { insts: st.insts.push(inst), ..st }),
{
    let st2 = ParseState { insts: st.insts.push(inst), ..st };
    assert forall|i: int| 0 <= i < st2.insts.len() implies #[trigger] partial_inst_wf(st2, i) by {
        if i < st.insts.len() {
            assert(partial_inst_wf(st, i));
            assert(st2.insts[i] == st.insts[i]);
        }
    }
    assert forall|j: int| 0 <= j < st2.stack.len() implies #[trigger] stack_entry_wf(st2, j) by {
        assert(stack_entry_wf(st, j));
    }
}

/// The parser's state as a `ParseState`, for loop bookkeeping.
pub open spec fn state_of(m: ProgModel, stack: Seq<usize>, next_id: usize) -> ParseState {
    ParseState { insts: m.insts, lbr: m.lbr, rbr: m.rbr, stack, next_id }
}

impl Program {
    fn new() -> (p: Program)
        ensures
            p@.insts == Seq::<Instruction>::empty(),
            p@.lbr == Map::<usize, usize>::empty(),
            p@.rbr == Map::<usize, usize>::empty(),
    {
        Program { insts: Vec::new(), lbr_pos: HashMap::new(), rbr_pos: HashMap::new() }
    }

    fn add_instruction(&mut self, inst: Instruction)
        ensures
            final(self)@.insts == old(self)@.insts.push(inst),
            final(self)@.lbr == old(self)@.lbr,
            final(self)@.rbr == old(self)@.rbr,
    {
        self.insts.push(inst);
    }

    fn add_rbracket(&mut self, id: usize, pos: usize)
        ensures
            final(self)@.insts == old(self)@.insts,
            final(self)@.lbr == old(self)@.lbr,
            final(self)@.rbr == old(self)@.rbr.insert(id, pos),
    {
        self.rbr_pos.insert(id, pos);
    }

    fn add_lbracket(&mut self, id: usize, pos: usize)
        ensures
            final(self)@.insts == old(self)@.insts,
            final(self)@.lbr == old(self)@.lbr.insert(id, pos),
            final(self)@.rbr == old(self)@.rbr,
    {
        self.lbr_pos.insert(id, pos);
    }
}

/// Turn tokens into a program, failing on a stray `]` or an unmatched `[`.
pub fn parse(tokens: &Vec<Token>) -> (r: Result<Program, ParseError>)
    ensures
        match r {
            Ok(p) => parse_spec(tokens@) == Ok::<ProgModel, ParseError>(p@) && prog_wf(p@),
            Err(e) => parse_spec(tokens@) == Err::<ProgModel, ParseError>(e),
        },
{
    let mut pos: usize = 0;
    let mut inst_pos: usize = 0;
    let mut bracket_stack: Vec<usize> = Vec::new();
    let mut bracket_id: usize = 0;

    let mut program = Program::new();

    while pos < tokens.len()
        invariant
            pos <= tokens.len(),
            inst_pos == program@.insts.len(),
            inst_pos <= pos,
            bracket_id <= pos,
            bracket_stack@.len() <= bracket_id,
            parse_spec(tokens@) == parse_from(
                tokens@,
                pos as int,
                state_of(program@, bracket_stack@, bracket_id),
            ),
        decreases tokens.len() - pos,
    {
        let t = tokens[pos];
        match t {
            Token::Plus => {
                let (num, npos) = consume_many_tokens(tokens, pos, Token::Plus);
                program.add_instruction(Instruction::Add(num));
                pos = npos;
            },
            Token::Minus => {
                let (num, npos) = consume_many_tokens(tokens, pos, Token::Minus);
                program.add_instruction(Instruction::Sub(num));
                pos = npos;
            },
            Token::Greater => {
                let (num, npos) = consume_many_tokens(tokens, pos, Token::Greater);
                program.add_instruction(Instruction::SubPtr(num));
                pos = npos;
            },
            Token::Less => {
                let (num, npos) = consume_many_tokens(tokens, pos, Token::Less);
                program.add_instruction(Instruction::AddPtr(num));
                pos = npos;
            },
            Token::Period => {
                program.add_instruction(Instruction::Write);
                pos += 1;
            },
            Token::Comma => {
                program.add_instruction(Instruction::Read);
                pos += 1;
            },
            Token::LBracket => {
                program.add_lbracket(bracket_id, inst_pos);
                bracket_stack.push(bracket_id);
                program.add_instruction(Instruction::JumpToRBracket(bracket_id));
                bracket_id += 1;
                pos += 1;
            },
            Token::RBracket => {
                match bracket_stack.pop() {
                    Some(id) => {
                        program.add_rbracket(id, inst_pos);
                        program.add_instruction(Instruction::JumpToLBracket(id));
                    },
                    None => {
                        return Err(ParseError::UnclosedBracket);
                    },
                }
                pos += 1;
            },
        }
        inst_pos += 1;
    }

    if !bracket_stack.is_empty() {
        Err(ParseError::UnclosedBracket)
    } else {
        proof {
            lemma_parse_from_wf(tokens@, 0, init_parse_state());
        }
        Ok(program)
    }
}

/// Count the tokens equal to `t` from `pos` on, at most 255, and return the
/// count with the position just past the counted run.
fn consume_many_tokens(tokens: &Vec<Token>, pos: usize, t: Token) -> (r: (u8, usize))
    requires
        pos <= tokens@.len(),
    ensures
        r.0 as int == run_count(tokens@, pos as int, t, 255),
        r.1 as int == pos + run_count(tokens@, pos as int, t, 255),
        pos <= r.1 <= tokens@.len(),
        pos < tokens@.len() && tokens@[pos as int] == t ==> r.0 >= 1,
{
    let mut counter: u8 = 0;
    let mut pos = pos;
    let ghost start = pos as int;

    proof {
        lemma_run_count_bounds(tokens@, start, t, 255);
    }
    while pos < tokens.len() && tokens[pos as usize] == t && counter < 255
        invariant
            start <= pos <= tokens@.len(),
            pos == start + counter,
            counter <= 255,
            run_count(tokens@, start, t, 255) == counter + run_count(
                tokens@,
                pos as int,
                t,
                255 - counter,
            ),
        decreases tokens@.len() - pos,
    {
        counter += 1;
        pos += 1;
    }
    (counter, pos)
}

/// The bracket contribution of one token.
pub open spec fn bracket_delta(t: Token) -> int {
    if t is LBracket {
        1
    } else if t is RBracket {
        -1
    } else {
        0
    }
}

/// How many more `[` than `]` stand in `toks[a..b]`.
pub open spec fn depth(toks: Seq<Token>, a: int, b: int) -> int
    decreases b - a,
{
    if a < b {
        bracket_delta(toks[a]) + depth(toks, a + 1, b)
    } else {
        0
    }
}

/// A well-nested token sequence: no prefix closes more brackets than it
/// opens, and the whole sequence closes every bracket it opens.
pub open spec fn well_nested(toks: Seq<Token>) -> bool {
    &&& forall|q: int| 0 <= q <= toks.len() ==> depth(toks, 0, q) >= 0
    &&& depth(toks, 0, toks.len() as int) == 0
}

/// Bracket balance from `pos` on, with `open` brackets already open: the
/// count never drops below zero and ends at zero.
pub open spec fn balanced_from(toks: Seq<Token>, pos: int, open: int) -> bool
    decreases toks.len() - pos,
{
    if pos < 0 || pos >= toks.len() {
        open == 0
    } else if toks[pos] is LBracket {
        balanced_from(toks, pos + 1, open + 1)
    } else if toks[pos] is RBracket {
        open > 0 && balanced_from(toks, pos + 1, open - 1)
    } else {
        balanced_from(toks, pos + 1, open)
    }
}

proof fn lemma_balanced_skip_flat(toks: Seq<Token>, a: int, b: int, open: int)
    requires
        0 <= a <= b <= toks.len(),
        forall|i: int| a <= i < b ==> bracket_delta(toks[i]) == 0,
    ensures
        balanced_from(toks, a, open) == balanced_from(toks, b, open),
    decreases b - a,
{
    if a < b {
        assert(bracket_delta(toks[a]) == 0);
        lemma_balanced_skip_flat(toks, a + 1, b, open);
    }
}

/// Parsing from `pos` in state `st` succeeds exactly when the remaining
/// tokens keep the bracket count balanced, starting from the open brackets
/// on the stack.
proof fn lemma_parse_from_ok_iff_balanced(toks: Seq<Token>, pos: int, st: ParseState)
    requires
        0 <= pos <= toks.len(),
    ensures
        (parse_from(toks, pos, st) matches Ok(m)) <==> balanced_from(
            toks,
            pos,
            st.stack.len() as int,
        ),
    decreases toks.len() - pos,
{
    let n = toks.len() as int;
    if pos < n {
        let t = toks[pos];
        if op_token(t) {
            let k = run_count(toks, pos, t, 255);
            lemma_run_count_bounds(toks, pos, t, 255);
            lemma_run_count_bounds(toks, pos + 1, t, 254);
            let st2 = ParseState { insts: st.insts.push(op_inst(t, k as u8)), ..st };
            lemma_parse_from_ok_iff_balanced(toks, pos + k, st2);
            assert forall|i: int| pos <= i < pos + k implies bracket_delta(toks[i]) == 0 by {
                assert(toks[i] == t);
            }
            lemma_balanced_skip_flat(toks, pos, pos + k, st.stack.len() as int);
        } else if t is Period {
            lemma_parse_from_ok_iff_balanced(
                toks,
                pos + 1,
                ParseState { insts: st.insts.push(Instruction::Write), ..st },
            );
        } else if t is Comma {
            lemma_parse_from_ok_iff_balanced(
                toks,
                pos + 1,
                ParseState { insts: st.insts.push(Instruction::Read), ..st },
            );
        } else if t is LBracket {
            let st2 = ParseState {
                insts: st.insts.push(Instruction::JumpToRBracket(st.next_id)),
                lbr: st.lbr.insert(st.next_id, st.insts.len() as usize),
                stack: st.stack.push(st.next_id),
                next_id: (st.next_id + 1) as usize,
                ..st
            };
            lemma_parse_from_ok_iff_balanced(toks, pos + 1, st2);
        } else {
            if st.stack.len() > 0 {
                let id = st.stack.last();
                let st2 = ParseState {
                    insts: st.insts.push(Instruction::JumpToLBracket(id)),
                    rbr: st.rbr.insert(id, st.insts.len() as usize),
                    stack: st.stack.drop_last(),
                    ..st
                };
                lemma_parse_from_ok_iff_balanced(toks, pos + 1, st2);
            }
        }
    }
}

/// `balanced_from` says the same as the prefix-count reading of
/// well-nestedness.
proof fn lemma_balanced_iff_depth(toks: Seq<Token>, pos: int, open: int)
    requires
        0 <= pos <= toks.len(),
        open >= 0,
    ensures
        balanced_from(toks, pos, open) <==> {
            &&& forall|q: int| pos <= q <= toks.len() ==> open + depth(toks, pos, q) >= 0
            &&& open + depth(toks, pos, toks.len() as int) == 0
        },
    decreases toks.len() - pos,
{
    let n = toks.len() as int;
    if pos >= n {
        assert(depth(toks, pos, n) == 0);
    } else {
        let t = toks[pos];
        let d = bracket_delta(t);
        assert forall|q: int| pos < q <= n implies depth(toks, pos, q) == d + depth(
            toks,
            pos + 1,
            q,
        ) by {
            assert(depth(toks, pos, q) == bracket_delta(toks[pos]) + depth(toks, pos + 1, q));
        }
        assert(depth(toks, pos, pos) == 0);
        if t is RBracket && open == 0 {
            assert(depth(toks, pos + 1, pos + 1) == 0);
            assert(open + depth(toks, pos, pos + 1) < 0);
        } else {
            let open2 = open + d;
            lemma_balanced_iff_depth(toks, pos + 1, open2);
            if balanced_from(toks, pos, open) {
                assert(balanced_from(toks, pos + 1, open2));
                assert forall|q: int| pos <= q <= n implies open + #[trigger] depth(
                    toks,
                    pos,
                    q,
                ) >= 0 by {
                    if q > pos {
                        assert(open2 + depth(toks, pos + 1, q) >= 0);
                    }
                }
                assert(open + depth(toks, pos, n) == open2 + depth(toks, pos + 1, n));
            } else {
                assert(!balanced_from(toks, pos + 1, open2));
                if (forall|q: int| pos <= q <= n ==> open + depth(toks, pos, q) >= 0) && open
                    + depth(toks, pos, n) == 0 {
                    assert forall|q: int| pos + 1 <= q <= n implies open2 + #[trigger] depth(
                        toks,
                        pos + 1,
                        q,
                    ) >= 0 by {
                        assert(open + depth(toks, pos, q) >= 0);
                    }
                    assert(open2 + depth(toks, pos + 1, n) == 0);
                    assert(false);
                }
            }
        }
    }
}

/// Law: parsing succeeds exactly on the well-nested token sequences.
pub proof fn lemma_parse_succeeds_iff_well_nested(toks: Seq<Token>)
    ensures
        (parse_spec(toks) matches Ok(m)) <==> well_nested(toks),
{
    lemma_parse_from_ok_iff_balanced(toks, 0, init_parse_state());
    lemma_balanced_iff_depth(toks, 0, 0);
}

/// Law: on a sequence with an unmatched `[` or a stray `]`, parsing fails
/// with the unclosed-bracket error.
pub proof fn lemma_parse_fails_on_ill_nested(toks: Seq<Token>)
    requires
        !well_nested(toks),
    ensures
        parse_spec(toks) == Err::<ProgModel, ParseError>(ParseError::UnclosedBracket),
{
    lemma_parse_succeeds_iff_well_nested(toks);
    let r = parse_spec(toks);
    match r {
        Ok(m) => {
            assert(false);
        },
        Err(e) => {
            assert(e == ParseError::UnclosedBracket);
        },
    }
}

/// Law: on a well-nested token sequence parsing succeeds, the program is
/// well-formed, and every bracket pair's opening index stands strictly below
/// its closing index, both recorded under the pair's identifier.
pub proof fn lemma_parse_resolves_matched_pairs(toks: Seq<Token>)
    requires
        toks.len() <= usize::MAX,
        well_nested(toks),
    ensures
        parse_spec(toks) matches Ok(m) && prog_wf(m) && (forall|id: usize| #[trigger]
            m.lbr.contains_key(id) ==> m.rbr.contains_key(id) && m.lbr[id] < m.rbr[id]),
{
    lemma_parse_succeeds_iff_well_nested(toks);
    lemma_parse_from_wf(toks, 0, init_parse_state());
    let m = parse_spec(toks)->Ok_0;
    assert forall|id: usize| #[trigger] m.lbr.contains_key(id) implies m.rbr.contains_key(id)
        && m.lbr[id] < m.rbr[id] by {
        assert(m.insts[m.lbr[id] as int] == Instruction::JumpToRBracket(id));
        assert(inst_wf(m, m.lbr[id] as int));
    }
}

/// The instructions a run of `rem` identical tokens `t` collapses to:
/// full chunks of 255, then the remainder.
pub open spec fn run_insts(t: Token, rem: int) -> Seq<Instruction>
    decreases rem,
{
    if rem <= 0 {
        Seq::empty()
    } else if rem >= 255 {
        seq![op_inst(t, 255)] + run_insts(t, rem - 255)
    } else {
        seq![op_inst(t, rem as u8)]
    }
}

proof fn lemma_run_count_on_uniform(toks: Seq<Token>, pos: int, t: Token, cap: int)
    requires
        0 <= pos <= toks.len(),
        0 <= cap,
        forall|i: int| pos <= i < toks.len() ==> toks[i] == t,
    ensures
        run_count(toks, pos, t, cap) == if cap <= toks.len() - pos {
            cap
        } else {
            toks.len() - pos
        },
    decreases toks.len() - pos,
{
    if pos < toks.len() && cap > 0 {
        lemma_run_count_on_uniform(toks, pos + 1, t, cap - 1);
    }
}

proof fn lemma_parse_from_uniform(toks: Seq<Token>, pos: int, st: ParseState, t: Token)
    requires
        0 <= pos <= toks.len(),
        op_token(t),
        forall|i: int| pos <= i < toks.len() ==> toks[i] == t,
        st.stack.len() == 0,
    ensures
        parse_from(toks, pos, st) == Ok::<ProgModel, ParseError>(
            (ProgModel { insts: st.insts + run_insts(t, toks.len() - pos), lbr: st.lbr, rbr: st.rbr }),
        ),
    decreases toks.len() - pos,
{
    let n = toks.len() as int;
    let rem = n - pos;
    if pos >= n {
        assert(st.insts + run_insts(t, 0) =~= st.insts);
    } else {
        let k = run_count(toks, pos, t, 255);
        lemma_run_count_on_uniform(toks, pos, t, 255);
        let st2 = ParseState { insts: st.insts.push(op_inst(t, k as u8)), ..st };
        lemma_parse_from_uniform(toks, pos + k, st2, t);
        assert(st2.insts =~= st.insts + seq![op_inst(t, k as u8)]);
        if rem >= 255 {
            assert(k == 255);
            assert(run_insts(t, rem) == seq![op_inst(t, 255)] + run_insts(t, rem - 255));
            assert(st.insts + run_insts(t, rem) =~= (st.insts + seq![op_inst(t, 255)]) + run_insts(
                t,
                rem - 255,
            ));
        } else {
            assert(k == rem);
            assert(run_insts(t, rem - k) =~= Seq::<Instruction>::empty());
            assert(st.insts + run_insts(t, rem) =~= (st.insts + seq![op_inst(t, k as u8)])
                + run_insts(t, rem - k));
        }
    }
}

proof fn lemma_run_insts_len(t: Token, rem: int)
    requires
        rem >= 0,
    ensures
        run_insts(t, rem).len() == (rem + 254) / 255,
    decreases rem,
{
    if rem <= 0 {
        assert((rem + 254) / 255 == 0);
    } else if rem >= 255 {
        lemma_run_insts_len(t, rem - 255);
        assert((rem + 254) / 255 == (rem - 255 + 254) / 255 + 1) by (nonlinear_arith);
    } else {
        assert((rem + 254) / 255 == 1);
    }
}

/// Law: a run of `k` identical pointer/value tokens collapses to exactly
/// one instruction for each full 255, plus one for the remainder — that is,
/// to `(k + 254) / 255` instructions (the ceiling of `k / 255`) — and a run
/// of `k <= 255` to the single instruction counting `k`.
pub proof fn lemma_run_collapses(t: Token, k: int)
    requires
        op_token(t),
        k >= 1,
    ensures
        parse_spec(Seq::new(k as nat, |i: int| t)) == Ok::<ProgModel, ParseError>(
            (ProgModel {
                insts: run_insts(t, k),
                lbr: Map::<usize, usize>::empty(),
                rbr: Map::<usize, usize>::empty(),
            }),
        ),
        run_insts(t, k).len() == (k + 254) / 255,
        k <= 255 ==> run_insts(t, k) == seq![op_inst(t, k as u8)],
{
    let toks = Seq::new(k as nat, |i: int| t);
    lemma_parse_from_uniform(toks, 0, init_parse_state(), t);
    assert(Seq::<Instruction>::empty() + run_insts(t, k) =~= run_insts(t, k));
    lemma_run_insts_len(t, k);
}

} // verus!
