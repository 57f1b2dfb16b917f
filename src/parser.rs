use vstd::prelude::*;
use crate::lexer::{Token, TokenKind, TokenView, tokens_view, is_digit, source_chars};
use crate::symbols::{ParseValue, SymbolTable};

verus! {

/// The operations of the intermediate representation.
#[derive(Debug, Clone, Copy, PartialEq, Eq, Structural)]
pub enum OpCode {
    LoadString,
    Add,
    Sub,
    Mul,
    Div,
    Print,
}

/// An argument of an instruction.
#[derive(Debug, Clone, PartialEq, Eq)]
pub enum Operand {
    IntegerConstant(i64),
    RegisterRef(usize),
    StringLiteral(String),
}

pub enum OperandView {
    IntegerConstant(i64),
    RegisterRef(usize),
    StringLiteral(Seq<char>),
}

impl View for Operand {
    type V = OperandView;

    open spec fn view(&self) -> OperandView {
        match self {
            Operand::IntegerConstant(n) => OperandView::IntegerConstant(*n),
            Operand::RegisterRef(r) => OperandView::RegisterRef(*r),
            Operand::StringLiteral(s) => OperandView::StringLiteral(s@),
        }
    }
}

/// One three-address instruction.
#[derive(Debug, Clone, PartialEq, Eq)]
pub struct Instruction {
    pub op: OpCode,
    pub dest: Option<usize>,
    pub args: Vec<Operand>,
}

pub struct InstructionView {
    pub op: OpCode,
    pub dest: Option<usize>,
    pub args: Seq<OperandView>,
}

impl View for Instruction {
    type V = InstructionView;

    open spec fn view(&self) -> InstructionView {
        InstructionView {
            op: self.op,
            dest: self.dest,
            args: self.args@.map_values(|a: Operand| a@),
        }
    }
}

/// A syntax or semantic error; the first one ends the parse.
#[derive(Debug, Clone, PartialEq, Eq)]
pub enum ParseError {
    UnexpectedToken { expected: TokenKind, found: TokenKind, line: usize },
    ExpectedExpression { found: TokenKind, line: usize },
    UndefinedVariable { name: String, line: usize },
    DivisionByZero { line: usize },
    ConstantOverflow { line: usize },
    InvalidInteger { value: String, line: usize },
}

pub enum ParseErrorView {
    UnexpectedToken { expected: TokenKind, found: TokenKind, line: nat },
    ExpectedExpression { found: TokenKind, line: nat },
    UndefinedVariable { name: Seq<char>, line: nat },
    DivisionByZero { line: nat },
    ConstantOverflow { line: nat },
    InvalidInteger { value: Seq<char>, line: nat },
}

impl View for ParseError {
    type V = ParseErrorView;

    open spec fn view(&self) -> ParseErrorView {
        match self {
            ParseError::UnexpectedToken { expected, found, line } => ParseErrorView::UnexpectedToken {
                expected: *expected,
                found: *found,
                line: *line as nat,
            },
            ParseError::ExpectedExpression { found, line } => ParseErrorView::ExpectedExpression {
                found: *found,
                line: *line as nat,
            },
            ParseError::UndefinedVariable { name, line } => ParseErrorView::UndefinedVariable {
                name: name@,
                line: *line as nat,
            },
            ParseError::DivisionByZero { line } => ParseErrorView::DivisionByZero {
                line: *line as nat,
            },
            ParseError::ConstantOverflow { line } => ParseErrorView::ConstantOverflow {
                line: *line as nat,
            },
            ParseError::InvalidInteger { value, line } => ParseErrorView::InvalidInteger {
                value: value@,
                line: *line as nat,
            },
        }
    }
}

/// The emitted instructions and the symbol table of one parse.
#[derive(Debug, Clone)]
pub struct IrProgram {
    pub instructions: Vec<Instruction>,
    pub symbols: SymbolTable,
}

/// The mathematical state of a parse: instructions so far and bindings.
pub struct IrState {
    pub instrs: Seq<InstructionView>,
    pub syms: Map<Seq<char>, ParseValue>,
}

pub open spec fn instrs_view(s: Seq<Instruction>) -> Seq<InstructionView> {
    s.map_values(|i: Instruction| i@)
}

impl View for IrProgram {
    type V = IrState;

    open spec fn view(&self) -> IrState {
        IrState { instrs: instrs_view(self.instructions@), syms: self.symbols@ }
    }
}

pub open spec fn empty_state() -> IrState {
    IrState { instrs: Seq::empty(), syms: Map::empty() }
}

pub open spec fn kind_at(t: Seq<TokenView>, p: nat) -> TokenKind {
    if p < t.len() {
        t[p as int].kind
    } else {
        TokenKind::EOF
    }
}

pub open spec fn line_at(t: Seq<TokenView>, p: nat) -> nat {
    if p < t.len() {
        t[p as int].line
    } else if t.len() > 0 {
        t.last().line
    } else {
        1
    }
}

pub open spec fn value_at(t: Seq<TokenView>, p: nat) -> Seq<char> {
    if p < t.len() {
        t[p as int].value
    } else {
        Seq::empty()
    }
}

/// The number that a string of decimal digits denotes.
pub open spec fn digits_value(s: Seq<char>) -> int
    decreases s.len(),
{
    if s.len() == 0 {
        0
    } else {
        digits_value(s.drop_last()) * 10 + (s.last() as int - '0' as int)
    }
}

pub open spec fn all_digits(s: Seq<char>) -> bool {
    forall|i: int| 0 <= i < s.len() ==> is_digit(s[i])
}

/// The value of an integer literal, when it is one that fits in `i64`.
pub open spec fn int_literal(s: Seq<char>) -> Option<i64> {
    if s.len() > 0 && all_digits(s) && digits_value(s) <= i64::MAX {
        Some(digits_value(s) as i64)
    } else {
        None
    }
}

pub open spec fn operand_of(v: ParseValue) -> OperandView {
    match v {
        ParseValue::Constant(n) => OperandView::IntegerConstant(n),
        ParseValue::RuntimeReg(r) => OperandView::RegisterRef(r),
    }
}

/// Appends an instruction whose destination is a fresh register: the next
/// register id is the number of instructions emitted so far.
pub open spec fn emit(st: IrState, op: OpCode, args: Seq<OperandView>) -> (ParseValue, IrState) {
    let reg = st.instrs.len() as usize;
    (
        ParseValue::RuntimeReg(reg),
        IrState {
            instrs: st.instrs.push(InstructionView { op, dest: Some(reg), args }),
            syms: st.syms,
        },
    )
}

/// Constant folding in signed 64-bit arithmetic; `None` when the result
/// does not fit or the divisor is zero.
pub open spec fn fold_const(op: OpCode, a: i64, b: i64) -> Option<i64> {
    match op {
        OpCode::Add => a.checked_add(b),
        OpCode::Sub => a.checked_sub(b),
        OpCode::Mul => a.checked_mul(b),
        _ => a.checked_div(b),
    }
}

pub open spec fn binop_of(k: TokenKind) -> OpCode {
    match k {
        TokenKind::Plus => OpCode::Add,
        TokenKind::Minus => OpCode::Sub,
        TokenKind::Star => OpCode::Mul,
        _ => OpCode::Div,
    }
}

pub open spec fn is_mul_op(k: TokenKind) -> bool {
    k == TokenKind::Star || k == TokenKind::Slash
}

pub open spec fn is_add_op(k: TokenKind) -> bool {
    k == TokenKind::Plus || k == TokenKind::Minus
}

/// Combines two operands: folded when both are constants, otherwise one
/// instruction into a fresh register.
pub open spec fn combine(
    op: OpCode,
    l: ParseValue,
    r: ParseValue,
    line: nat,
    st: IrState,
) -> Result<(ParseValue, IrState), ParseErrorView> {
    match (l, r) {
        (ParseValue::Constant(a), ParseValue::Constant(b)) => {
            if op == OpCode::Div && b == 0 {
                Err(ParseErrorView::DivisionByZero { line })
            } else {
                match fold_const(op, a, b) {
                    Some(v) => Ok((ParseValue::Constant(v), st)),
                    None => Err(ParseErrorView::ConstantOverflow { line }),
                }
            }
        },
        _ => Ok(emit(st, op, seq![operand_of(l), operand_of(r)])),
    }
}

/// primary := INT | STRING | IDENTIFIER, at token `p`.
pub open spec fn primary(t: Seq<TokenView>, p: nat, st: IrState) -> Result<
    (ParseValue, IrState),
    ParseErrorView,
> {
    let line = line_at(t, p);
    let text = value_at(t, p);
    match kind_at(t, p) {
        TokenKind::Int => match int_literal(text) {
            Some(n) => Ok((ParseValue::Constant(n), st)),
            None => Err(ParseErrorView::InvalidInteger { value: text, line }),
        },
        TokenKind::String => Ok(emit(st, OpCode::LoadString, seq![OperandView::StringLiteral(text)])),
        TokenKind::Identifier => {
            if st.syms.contains_key(text) {
                Ok((st.syms[text], st))
            } else {
                Err(ParseErrorView::UndefinedVariable { name: text, line })
            }
        },
        k => Err(ParseErrorView::ExpectedExpression { found: k, line }),
    }
}

pub proof fn lemma_primary_pos(t: Seq<TokenView>, p: nat, st: IrState)
    ensures
        primary(t, p, st) is Ok ==> p < t.len(),
{
}

/// The tail (('*' | '/') primary)* of a factor whose left operand is `lhs`,
/// from token `p`; yields the value and the position after the factor.
pub open spec fn factor_rest(t: Seq<TokenView>, p: nat, lhs: ParseValue, st: IrState) -> Result<
    (ParseValue, nat, IrState),
    ParseErrorView,
>
    decreases t.len() + 1 - p,
{
    let k = kind_at(t, p);
    if is_mul_op(k) {
        match primary(t, p + 1, st) {
            Ok((rhs, st1)) => match combine(binop_of(k), lhs, rhs, line_at(t, p), st1) {
                Ok((v, st2)) => factor_rest(t, p + 2, v, st2),
                Err(e) => Err(e),
            },
            Err(e) => Err(e),
        }
    } else {
        Ok((lhs, p, st))
    }
}

/// factor := primary (('*' | '/') primary)*, from token `p`.
pub open spec fn factor(t: Seq<TokenView>, p: nat, st: IrState) -> Result<
    (ParseValue, nat, IrState),
    ParseErrorView,
> {
    match primary(t, p, st) {
        Ok((v, st1)) => factor_rest(t, p + 1, v, st1),
        Err(e) => Err(e),
    }
}

pub proof fn lemma_factor_rest_pos(t: Seq<TokenView>, p: nat, lhs: ParseValue, st: IrState)
    ensures
        factor_rest(t, p, lhs, st) matches Ok((_, q, _)) ==> p <= q && (q <= p || q <= t.len()),
    decreases t.len() + 1 - p,
{
    let k = kind_at(t, p);
    if is_mul_op(k) {
        if let Ok((rhs, st1)) = primary(t, p + 1, st) {
            if let Ok((v, st2)) = combine(binop_of(k), lhs, rhs, line_at(t, p), st1) {
                lemma_factor_rest_pos(t, p + 2, v, st2);
            }
        }
    }
}

pub proof fn lemma_factor_pos(t: Seq<TokenView>, p: nat, st: IrState)
    ensures
        factor(t, p, st) matches Ok((_, q, _)) ==> p < q <= t.len(),
{
    if let Ok((v, st1)) = primary(t, p, st) {
        lemma_factor_rest_pos(t, p + 1, v, st1);
    }
}

/// The tail (('+' | '-') factor)* of a term whose left operand is `lhs`.
pub open spec fn term_rest(t: Seq<TokenView>, p: nat, lhs: ParseValue, st: IrState) -> Result<
    (ParseValue, nat, IrState),
    ParseErrorView,
>
    decreases t.len() + 1 - p,
{
    let k = kind_at(t, p);
    if is_add_op(k) {
        match factor(t, p + 1, st) {
            Ok((rhs, q, st1)) => {
                proof {
                    lemma_factor_pos(t, p + 1, st);
                }
                match combine(binop_of(k), lhs, rhs, line_at(t, p), st1) {
                    Ok((v, st2)) => term_rest(t, q, v, st2),
                    Err(e) => Err(e),
                }
            },
            Err(e) => Err(e),
        }
    } else {
        Ok((lhs, p, st))
    }
}

/// term := factor (('+' | '-') factor)*, from token `p`.
pub open spec fn term(t: Seq<TokenView>, p: nat, st: IrState) -> Result<
    (ParseValue, nat, IrState),
    ParseErrorView,
> {
    match factor(t, p, st) {
        Ok((v, q, st1)) => term_rest(t, q, v, st1),
        Err(e) => Err(e),
    }
}

pub proof fn lemma_term_rest_pos(t: Seq<TokenView>, p: nat, lhs: ParseValue, st: IrState)
    ensures
        term_rest(t, p, lhs, st) matches Ok((_, q, _)) ==> p <= q && (q <= p || q <= t.len()),
    decreases t.len() + 1 - p,
{
    let k = kind_at(t, p);
    if is_add_op(k) {
        lemma_factor_pos(t, p + 1, st);
        if let Ok((rhs, q, st1)) = factor(t, p + 1, st) {
            if let Ok((v, st2)) = combine(binop_of(k), lhs, rhs, line_at(t, p), st1) {
                lemma_term_rest_pos(t, q, v, st2);
            }
        }
    }
}

pub proof fn lemma_term_pos(t: Seq<TokenView>, p: nat, st: IrState)
    ensures
        term(t, p, st) matches Ok((_, q, _)) ==> p < q <= t.len(),
{
    lemma_factor_pos(t, p, st);
    if let Ok((v, q, st1)) = factor(t, p, st) {
        lemma_term_rest_pos(t, q, v, st1);
    }
}

/// The statements from token `p` on. `let IDENT = EXPR ;` binds the name;
/// any other token at statement position is skipped; end-of-input stops.
pub open spec fn statements(t: Seq<TokenView>, p: nat, st: IrState) -> Result<
    IrState,
    ParseErrorView,
>
    decreases t.len() + 1 - p,
{
    let k = kind_at(t, p);
    if k == TokenKind::EOF {
        Ok(st)
    } else if k == TokenKind::Let {
        if kind_at(t, p + 1) != TokenKind::Identifier {
            Err(
                ParseErrorView::UnexpectedToken {
                    expected: TokenKind::Identifier,
                    found: kind_at(t, p + 1),
                    line: line_at(t, p + 1),
                },
            )
        } else if kind_at(t, p + 2) != TokenKind::Equal {
            Err(
                ParseErrorView::UnexpectedToken {
                    expected: TokenKind::Equal,
                    found: kind_at(t, p + 2),
                    line: line_at(t, p + 2),
                },
            )
        } else {
            match term(t, p + 3, st) {
                Ok((v, q, st1)) => {
                    proof {
                        lemma_term_pos(t, p + 3, st);
                    }
                    if kind_at(t, q) != TokenKind::Semicolon {
                        Err(
                            ParseErrorView::UnexpectedToken {
                                expected: TokenKind::Semicolon,
                                found: kind_at(t, q),
                                line: line_at(t, q),
                            },
                        )
                    } else {
                        statements(
                            t,
                            q + 1,
                            IrState { instrs: st1.instrs, syms: st1.syms.insert(value_at(t, p + 1), v) },
                        )
                    }
                },
                Err(e) => Err(e),
            }
        }
    } else {
        statements(t, p + 1, st)
    }
}

/// The result of parsing a whole token sequence from an empty state.
pub open spec fn generate_ir(t: Seq<TokenView>) -> Result<IrState, ParseErrorView> {
    statements(t, 0, empty_state())
}

fn kind_of(toks: &Vec<Token>, p: usize) -> (k: TokenKind)
    ensures
        k == kind_at(tokens_view(toks@), p as nat),
{
    if p < toks.len() {
        toks[p].kind
    } else {
        TokenKind::EOF
    }
}

fn line_of(toks: &Vec<Token>, p: usize) -> (l: usize)
    ensures
        l as nat == line_at(tokens_view(toks@), p as nat),
{
    if p < toks.len() {
        toks[p].line
    } else if toks.len() > 0 {
        toks[toks.len() - 1].line
    } else {
        1
    }
}

fn is_mul_kind(k: TokenKind) -> (r: bool)
    ensures
        r == is_mul_op(k),
{
    k == TokenKind::Star || k == TokenKind::Slash
}

fn is_add_kind(k: TokenKind) -> (r: bool)
    ensures
        r == is_add_op(k),
{
    k == TokenKind::Plus || k == TokenKind::Minus
}

fn binop_for(k: TokenKind) -> (op: OpCode)
    ensures
        op == binop_of(k),
{
    match k {
        TokenKind::Plus => OpCode::Add,
        TokenKind::Minus => OpCode::Sub,
        TokenKind::Star => OpCode::Mul,
        _ => OpCode::Div,
    }
}

proof fn lemma_digits_value_prefix(s: Seq<char>, k: int)
    requires
        all_digits(s),
        0 <= k <= s.len(),
    ensures
        0 <= digits_value(s.take(k)) <= digits_value(s),
    decreases s.len(),
{
    if k == s.len() {
        assert(s.take(k) =~= s);
        if s.len() > 0 {
            lemma_digits_value_prefix(s.drop_last(), k - 1);
            assert(s.drop_last().take(k - 1) =~= s.drop_last());
        }
    } else {
        let d = s.drop_last();
        lemma_digits_value_prefix(d, k);
        assert(d.take(k) =~= s.take(k));
        lemma_digits_value_prefix(d, d.len() as int);
        assert(d.take(d.len() as int) =~= d);
    }
}

/// Reads a decimal integer literal; `None` unless it is all digits and fits.
fn parse_int_literal(text: &String) -> (r: Option<i64>)
    ensures
        r == int_literal(text@),
{
    let chars = source_chars(text.as_str());
    if chars.len() == 0 {
        return None;
    }
    let mut acc: i64 = 0;
    let mut i: usize = 0;
    while i < chars.len()
        invariant
            chars@ == text@,
            i <= chars@.len(),
            all_digits(chars@.take(i as int)),
            acc == digits_value(chars@.take(i as int)),
        decreases chars@.len() - i,
    {
        let c = chars[i];
        if !('0' <= c && c <= '9') {
            assert(!all_digits(text@));
            return None;
        }
        proof {
            assert(chars@.take(i + 1).drop_last() =~= chars@.take(i as int));
            assert(all_digits(chars@.take(i + 1)));
        }
        let d = (c as u32 - '0' as u32) as i64;
        let next = match acc.checked_mul(10) {
            Some(m) => m.checked_add(d),
            None => None,
        };
        match next {
            Some(n) => {
                acc = n;
            },
            None => {
                proof {
                    if all_digits(text@) {
                        lemma_digits_value_prefix(text@, i + 1);
                        lemma_digits_value_prefix(text@, i as int);
                    }
                }
                return None;
            },
        }
        i = i + 1;
    }
    assert(chars@.take(i as int) =~= text@);
    Some(acc)
}

fn operand_from(v: ParseValue) -> (r: Operand)
    ensures
        r@ == operand_of(v),
{
    match v {
        ParseValue::Constant(n) => Operand::IntegerConstant(n),
        ParseValue::RuntimeReg(r) => Operand::RegisterRef(r),
    }
}

fn emit_instruction(prog: &mut IrProgram, op: OpCode, args: Vec<Operand>) -> (reg: usize)
    ensures
        final(prog).symbols == old(prog).symbols,
        (ParseValue::RuntimeReg(reg), final(prog)@) == emit(
            old(prog)@,
            op,
            args@.map_values(|a: Operand| a@),
        ),
{
    let reg = prog.instructions.len();
    let ghost before = prog.instructions@;
    let ghost arg_views = args@.map_values(|a: Operand| a@);
    prog.instructions.push(Instruction { op, dest: Some(reg), args });
    proof {
        assert(instrs_view(prog.instructions@) =~= instrs_view(before).push(
            InstructionView { op, dest: Some(reg), args: arg_views },
        ));
    }
    reg
}

fn combine_values(prog: &mut IrProgram, op: OpCode, l: ParseValue, r: ParseValue, line: usize) -> (res:
    Result<ParseValue, ParseError>)
    requires
        old(prog).symbols.wf(),
    ensures
        final(prog).symbols.wf(),
        match res {
            Ok(v) => combine(op, l, r, line as nat, old(prog)@) == Ok::<
                (ParseValue, IrState),
                ParseErrorView,
            >((v, final(prog)@)),
            Err(e) => combine(op, l, r, line as nat, old(prog)@) == Err::<
                (ParseValue, IrState),
                ParseErrorView,
            >(e@),
        },
{
    match (l, r) {
        (ParseValue::Constant(a), ParseValue::Constant(b)) => {
            if op == OpCode::Div && b == 0 {
                return Err(ParseError::DivisionByZero { line });
            }
            let folded = match op {
                OpCode::Add => a.checked_add(b),
                OpCode::Sub => a.checked_sub(b),
                OpCode::Mul => a.checked_mul(b),
                _ => a.checked_div(b),
            };
            match folded {
                Some(v) => Ok(ParseValue::Constant(v)),
                None => Err(ParseError::ConstantOverflow { line }),
            }
        },
        _ => {
            let args = vec![operand_from(l), operand_from(r)];
            assert(args@.map_values(|a: Operand| a@) =~= seq![operand_of(l), operand_of(r)]);
            let reg = emit_instruction(prog, op, args);
            Ok(ParseValue::RuntimeReg(reg))
        },
    }
}

fn parse_primary(toks: &Vec<Token>, p: usize, prog: &mut IrProgram) -> (r: Result<
    ParseValue,
    ParseError,
>)
    requires
        old(prog).symbols.wf(),
    ensures
        final(prog).symbols.wf(),
        match r {
            Ok(v) => primary(tokens_view(toks@), p as nat, old(prog)@) == Ok::<
                (ParseValue, IrState),
                ParseErrorView,
            >((v, final(prog)@)),
            Err(e) => primary(tokens_view(toks@), p as nat, old(prog)@) == Err::<
                (ParseValue, IrState),
                ParseErrorView,
            >(e@),
        },
{
    let k = kind_of(toks, p);
    let line = line_of(toks, p);
    match k {
        TokenKind::Int => match parse_int_literal(&toks[p].value) {
            Some(n) => Ok(ParseValue::Constant(n)),
            None => Err(ParseError::InvalidInteger { value: toks[p].value.clone(), line }),
        },
        TokenKind::String => {
            let args = vec![Operand::StringLiteral(toks[p].value.clone())];
            assert(args@.map_values(|a: Operand| a@) =~= seq![
                OperandView::StringLiteral(toks@[p as int].value@),
            ]);
            let reg = emit_instruction(prog, OpCode::LoadString, args);
            Ok(ParseValue::RuntimeReg(reg))
        },
        TokenKind::Identifier => match prog.symbols.get(toks[p].value.as_str()) {
            Some(v) => Ok(v),
            None => Err(ParseError::UndefinedVariable { name: toks[p].value.clone(), line }),
        },
        _ => Err(ParseError::ExpectedExpression { found: k, line }),
    }
}

fn parse_factor(toks: &Vec<Token>, p: usize, prog: &mut IrProgram) -> (r: Result<
    (ParseValue, usize),
    ParseError,
>)
    requires
        old(prog).symbols.wf(),
    ensures
        final(prog).symbols.wf(),
        match r {
            Ok((v, q)) => factor(tokens_view(toks@), p as nat, old(prog)@) == Ok::<
                (ParseValue, nat, IrState),
                ParseErrorView,
            >((v, q as nat, final(prog)@)),
            Err(e) => factor(tokens_view(toks@), p as nat, old(prog)@) == Err::<
                (ParseValue, nat, IrState),
                ParseErrorView,
            >(e@),
        },
{
    let ghost t = tokens_view(toks@);
    let ghost target = factor(t, p as nat, prog@);
    let n = toks.len();
    assert(t.len() == n);
    let mut lhs = match parse_primary(toks, p, prog) {
        Ok(v) => v,
        Err(e) => {
            return Err(e);
        },
    };
    proof {
        lemma_primary_pos(t, p as nat, old(prog)@);
    }
    let mut pos = p + 1;
    while is_mul_kind(kind_of(toks, pos))
        invariant
            t == tokens_view(toks@),
            t.len() == toks@.len(),
            n == toks@.len(),
            target == factor(t, p as nat, old(prog)@),
            prog.symbols.wf(),
            pos <= toks@.len(),
            factor_rest(t, pos as nat, lhs, prog@) == target,
        decreases toks@.len() - pos,
    {
        let k = kind_of(toks, pos);
        let line = line_of(toks, pos);
        let ghost st1 = prog@;
        let rhs = match parse_primary(toks, pos + 1, prog) {
            Ok(v) => v,
            Err(e) => {
                return Err(e);
            },
        };
        proof {
            lemma_primary_pos(t, (pos + 1) as nat, st1);
        }
        lhs = match combine_values(prog, binop_for(k), lhs, rhs, line) {
            Ok(v) => v,
            Err(e) => {
                return Err(e);
            },
        };
        pos = pos + 2;
    }
    Ok((lhs, pos))
}

fn parse_term(toks: &Vec<Token>, p: usize, prog: &mut IrProgram) -> (r: Result<
    (ParseValue, usize),
    ParseError,
>)
    requires
        old(prog).symbols.wf(),
    ensures
        final(prog).symbols.wf(),
        match r {
            Ok((v, q)) => term(tokens_view(toks@), p as nat, old(prog)@) == Ok::<
                (ParseValue, nat, IrState),
                ParseErrorView,
            >((v, q as nat, final(prog)@)),
            Err(e) => term(tokens_view(toks@), p as nat, old(prog)@) == Err::<
                (ParseValue, nat, IrState),
                ParseErrorView,
            >(e@),
        },
{
    let ghost t = tokens_view(toks@);
    let ghost target = term(t, p as nat, prog@);
    let n = toks.len();
    assert(t.len() == n);
    let ghost st0 = prog@;
    let (first, after) = match parse_factor(toks, p, prog) {
        Ok(x) => x,
        Err(e) => {
            return Err(e);
        },
    };
    proof {
        lemma_factor_pos(t, p as nat, st0);
    }
    let mut lhs = first;
    let mut pos = after;
    while is_add_kind(kind_of(toks, pos))
        invariant
            t == tokens_view(toks@),
            t.len() == toks@.len(),
            n == toks@.len(),
            target == term(t, p as nat, old(prog)@),
            prog.symbols.wf(),
            pos <= toks@.len(),
            term_rest(t, pos as nat, lhs, prog@) == target,
        decreases toks@.len() - pos,
    {
        let k = kind_of(toks, pos);
        let line = line_of(toks, pos);
        let ghost st1 = prog@;
        let (rhs, next) = match parse_factor(toks, pos + 1, prog) {
            Ok(x) => x,
            Err(e) => {
                return Err(e);
            },
        };
        proof {
            lemma_factor_pos(t, (pos + 1) as nat, st1);
        }
        lhs = match combine_values(prog, binop_for(k), lhs, rhs, line) {
            Ok(v) => v,
            Err(e) => {
                return Err(e);
            },
        };
        pos = next;
    }
    Ok((lhs, pos))
}

/// Parses a token sequence into instructions and a symbol table, stopping
/// at the first syntax or semantic error.
pub fn generate(tokens: &Vec<Token>) -> (r: Result<IrProgram, ParseError>)
    ensures
        match r {
            Ok(prog) => generate_ir(tokens_view(tokens@)) == Ok::<IrState, ParseErrorView>(prog@)
                && prog.symbols.wf(),
            Err(e) => generate_ir(tokens_view(tokens@)) == Err::<IrState, ParseErrorView>(e@),
        },
{
    let ghost t = tokens_view(tokens@);
    let mut prog = IrProgram { instructions: Vec::new(), symbols: SymbolTable::new() };
    let n = tokens.len();
    assert(t.len() == n);
    assert(prog@.instrs =~= Seq::<InstructionView>::empty());
    let mut pos: usize = 0;
    while kind_of(tokens, pos) != TokenKind::EOF
        invariant
            t == tokens_view(tokens@),
            t.len() == tokens@.len(),
            n == tokens@.len(),
            prog.symbols.wf(),
            pos <= tokens@.len(),
            statements(t, pos as nat, prog@) == generate_ir(t),
        decreases tokens@.len() - pos,
    {
        let k = kind_of(tokens, pos);
        if k == TokenKind::Let {
            let k1 = kind_of(tokens, pos + 1);
            if k1 != TokenKind::Identifier {
                return Err(
                    ParseError::UnexpectedToken {
                        expected: TokenKind::Identifier,
                        found: k1,
                        line: line_of(tokens, pos + 1),
                    },
                );
            }
            let k2 = kind_of(tokens, pos + 2);
            if k2 != TokenKind::Equal {
                return Err(
                    ParseError::UnexpectedToken {
                        expected: TokenKind::Equal,
                        found: k2,
                        line: line_of(tokens, pos + 2),
                    },
                );
            }
            let ghost st0 = prog@;
            let (v, q) = match parse_term(tokens, pos + 3, &mut prog) {
                Ok(x) => x,
                Err(e) => {
                    return Err(e);
                },
            };
            proof {
                lemma_term_pos(t, (pos + 3) as nat, st0);
            }
            let kq = kind_of(tokens, q);
            if kq != TokenKind::Semicolon {
                return Err(
                    ParseError::UnexpectedToken {
                        expected: TokenKind::Semicolon,
                        found: kq,
                        line: line_of(tokens, q),
                    },
                );
            }
            let name = tokens[pos + 1].value.clone();
            prog.symbols.bind(name, v);
            pos = q + 1;
        } else {
            pos = pos + 1;
        }
    }
    Ok(prog)
}

/// A register reference in an operand names a register below `n`.
pub open spec fn operand_defined(a: OperandView, n: int) -> bool {
    a matches OperandView::RegisterRef(r) ==> r < n
}

/// A value held in a register names a register below `n`.
pub open spec fn value_defined(v: ParseValue, n: int) -> bool {
    v matches ParseValue::RuntimeReg(r) ==> r < n
}

/// Register ids are the instruction positions, so each is defined once, and
/// every register that the IR or the symbol table refers to is defined by an
/// earlier instruction.
pub open spec fn ir_well_formed(st: IrState) -> bool {
    &&& forall|k: int|
        0 <= k < st.instrs.len() ==> #[trigger] st.instrs[k].dest == Some(k as usize)
    &&& forall|k: int, j: int|
        0 <= k < st.instrs.len() && 0 <= j < st.instrs[k].args.len() ==> operand_defined(
            #[trigger] st.instrs[k].args[j],
            k,
        )
    &&& forall|name: Seq<char>|
        #[trigger] st.syms.contains_key(name) ==> value_defined(st.syms[name], st.instrs.len() as int)
}

/// What a parse step keeps: a well-formed state stays well formed, earlier
/// instructions stay in place, and the value it yields is defined.
pub open spec fn step_ok(st: IrState, v: ParseValue, st2: IrState) -> bool {
    &&& ir_well_formed(st2)
    &&& st.instrs.len() <= st2.instrs.len()
    &&& st2.syms == st.syms
    &&& value_defined(v, st2.instrs.len() as int)
}

proof fn lemma_emit_ok(st: IrState, op: OpCode, args: Seq<OperandView>)
    requires
        ir_well_formed(st),
        forall|j: int| 0 <= j < args.len() ==> operand_defined(#[trigger] args[j], st.instrs.len() as int),
    ensures
        step_ok(st, emit(st, op, args).0, emit(st, op, args).1),
{
    let st2 = emit(st, op, args).1;
    assert forall|k: int, j: int|
        0 <= k < st2.instrs.len() && 0 <= j < st2.instrs[k].args.len() implies operand_defined(
        #[trigger] st2.instrs[k].args[j],
        k,
    ) by {
        if k < st.instrs.len() {
            assert(st2.instrs[k] == st.instrs[k]);
        }
    }
    assert forall|k: int| 0 <= k < st2.instrs.len() implies #[trigger] st2.instrs[k].dest == Some(
        k as usize,
    ) by {
        if k < st.instrs.len() {
            assert(st2.instrs[k] == st.instrs[k]);
        }
    }
}

proof fn lemma_combine_ok(op: OpCode, l: ParseValue, r: ParseValue, line: nat, st: IrState)
    requires
        ir_well_formed(st),
        value_defined(l, st.instrs.len() as int),
        value_defined(r, st.instrs.len() as int),
    ensures
        combine(op, l, r, line, st) matches Ok((v, st2)) ==> step_ok(st, v, st2),
{
    match (l, r) {
        (ParseValue::Constant(_), ParseValue::Constant(_)) => {},
        _ => {
            let args = seq![operand_of(l), operand_of(r)];
            assert forall|j: int| 0 <= j < args.len() implies operand_defined(
                #[trigger] args[j],
                st.instrs.len() as int,
            ) by {
                if j == 0 {
                    assert(args[j] == operand_of(l));
                } else {
                    assert(args[j] == operand_of(r));
                }
            }
            lemma_emit_ok(st, op, args);
        },
    }
}

proof fn lemma_primary_ok(t: Seq<TokenView>, p: nat, st: IrState)
    requires
        ir_well_formed(st),
    ensures
        primary(t, p, st) matches Ok((v, st2)) ==> step_ok(st, v, st2),
{
    if kind_at(t, p) == TokenKind::String {
        let args = seq![OperandView::StringLiteral(value_at(t, p))];
        assert(operand_defined(args[0], st.instrs.len() as int));
        lemma_emit_ok(st, OpCode::LoadString, args);
    }
}

proof fn lemma_factor_rest_ok(t: Seq<TokenView>, p: nat, lhs: ParseValue, st: IrState)
    requires
        ir_well_formed(st),
        value_defined(lhs, st.instrs.len() as int),
    ensures
        factor_rest(t, p, lhs, st) matches Ok((v, _, st2)) ==> step_ok(st, v, st2),
    decreases t.len() + 1 - p,
{
    let k = kind_at(t, p);
    if is_mul_op(k) {
        lemma_primary_ok(t, p + 1, st);
        if let Ok((rhs, st1)) = primary(t, p + 1, st) {
            lemma_combine_ok(binop_of(k), lhs, rhs, line_at(t, p), st1);
            if let Ok((v, st2)) = combine(binop_of(k), lhs, rhs, line_at(t, p), st1) {
                lemma_factor_rest_ok(t, p + 2, v, st2);
            }
        }
    }
}

proof fn lemma_factor_ok(t: Seq<TokenView>, p: nat, st: IrState)
    requires
        ir_well_formed(st),
    ensures
        factor(t, p, st) matches Ok((v, _, st2)) ==> step_ok(st, v, st2),
{
    lemma_primary_ok(t, p, st);
    if let Ok((v, st1)) = primary(t, p, st) {
        lemma_factor_rest_ok(t, p + 1, v, st1);
    }
}

proof fn lemma_term_rest_ok(t: Seq<TokenView>, p: nat, lhs: ParseValue, st: IrState)
    requires
        ir_well_formed(st),
        value_defined(lhs, st.instrs.len() as int),
    ensures
        term_rest(t, p, lhs, st) matches Ok((v, _, st2)) ==> step_ok(st, v, st2),
    decreases t.len() + 1 - p,
{
    let k = kind_at(t, p);
    if is_add_op(k) {
        lemma_factor_ok(t, p + 1, st);
        lemma_factor_pos(t, p + 1, st);
        if let Ok((rhs, q, st1)) = factor(t, p + 1, st) {
            lemma_combine_ok(binop_of(k), lhs, rhs, line_at(t, p), st1);
            if let Ok((v, st2)) = combine(binop_of(k), lhs, rhs, line_at(t, p), st1) {
                lemma_term_rest_ok(t, q, v, st2);
            }
        }
    }
}

proof fn lemma_term_ok(t: Seq<TokenView>, p: nat, st: IrState)
    requires
        ir_well_formed(st),
    ensures
        term(t, p, st) matches Ok((v, _, st2)) ==> step_ok(st, v, st2),
{
    lemma_factor_ok(t, p, st);
    if let Ok((v, q, st1)) = factor(t, p, st) {
        lemma_term_rest_ok(t, q, v, st1);
    }
}

proof fn lemma_statements_ok(t: Seq<TokenView>, p: nat, st: IrState)
    requires
        ir_well_formed(st),
    ensures
        statements(t, p, st) matches Ok(st2) ==> ir_well_formed(st2),
    decreases t.len() + 1 - p,
{
    let k = kind_at(t, p);
    if k == TokenKind::EOF {
    } else if k == TokenKind::Let {
        if kind_at(t, p + 1) == TokenKind::Identifier && kind_at(t, p + 2) == TokenKind::Equal {
            lemma_term_ok(t, p + 3, st);
            lemma_term_pos(t, p + 3, st);
            if let Ok((v, q, st1)) = term(t, p + 3, st) {
                if kind_at(t, q) == TokenKind::Semicolon {
                    let st2 = IrState {
                        instrs: st1.instrs,
                        syms: st1.syms.insert(value_at(t, p + 1), v),
                    };
                    assert(ir_well_formed(st2));
                    lemma_statements_ok(t, q + 1, st2);
                }
            }
        }
    } else {
        lemma_statements_ok(t, p + 1, st);
    }
}

/// Define before use: in every IR that `generate` produces, instruction `k`
/// defines register `k`, so each register is defined exactly once, and every
/// register that an instruction or a symbol refers to is defined by an
/// earlier instruction.
pub proof fn lemma_generated_ir_defines_before_use(t: Seq<TokenView>)
    ensures
        generate_ir(t) matches Ok(st) ==> ir_well_formed(st),
{
    lemma_statements_ok(t, 0, empty_state());
}

/// Tokens `p..q` are all integer literals and arithmetic operators.
pub open spec fn literal_arith(t: Seq<TokenView>, p: nat, q: nat) -> bool {
    forall|i: int|
        p <= i < q ==> (#[trigger] t[i].kind == TokenKind::Int || is_add_op(t[i].kind) || is_mul_op(
            t[i].kind,
        ))
}

proof fn lemma_literal_factor_rest(t: Seq<TokenView>, p: nat, c: i64, st: IrState)
    ensures
        factor_rest(t, p, ParseValue::Constant(c), st) matches Ok((v, q, st2)) ==> (literal_arith(
            t,
            p,
            q,
        ) && q <= t.len() ==> st2 == st && v is Constant),
    decreases t.len() + 1 - p,
{
    let k = kind_at(t, p);
    if is_mul_op(k) {
        if let Ok((rhs, st1)) = primary(t, p + 1, st) {
            if let Ok((v, st2)) = combine(binop_of(k), ParseValue::Constant(c), rhs, line_at(t, p), st1) {
                lemma_factor_rest_pos(t, p + 2, v, st2);
                if let Ok((w, q, st3)) = factor_rest(t, p + 2, v, st2) {
                    if literal_arith(t, p, q) && q <= t.len() {
                        assert(t[p + 1int].kind == TokenKind::Int || is_add_op(t[p + 1int].kind)
                            || is_mul_op(t[p + 1int].kind));
                        assert(rhs is Constant && st1 == st);
                        assert(v is Constant && st2 == st);
                        lemma_literal_factor_rest(t, p + 2, v->Constant_0, st);
                    }
                }
            }
        }
    }
}

proof fn lemma_literal_factor(t: Seq<TokenView>, p: nat, st: IrState)
    ensures
        factor(t, p, st) matches Ok((v, q, st2)) ==> (literal_arith(t, p, q) && q <= t.len() ==> st2
            == st && v is Constant),
{
    if let Ok((v, st1)) = primary(t, p, st) {
        lemma_factor_rest_pos(t, p + 1, v, st1);
        if let Ok((w, q, st2)) = factor_rest(t, p + 1, v, st1) {
            if literal_arith(t, p, q) && q <= t.len() {
                assert(t[p as int].kind == TokenKind::Int || is_add_op(t[p as int].kind) || is_mul_op(
                    t[p as int].kind,
                ));
                assert(v is Constant && st1 == st);
                lemma_literal_factor_rest(t, p + 1, v->Constant_0, st);
            }
        }
    }
}

proof fn lemma_literal_term_rest(t: Seq<TokenView>, p: nat, c: i64, st: IrState)
    ensures
        term_rest(t, p, ParseValue::Constant(c), st) matches Ok((v, q, st2)) ==> (literal_arith(
            t,
            p,
            q,
        ) && q <= t.len() ==> st2 == st && v is Constant),
    decreases t.len() + 1 - p,
{
    let k = kind_at(t, p);
    if is_add_op(k) {
        lemma_factor_pos(t, p + 1, st);
        lemma_literal_factor(t, p + 1, st);
        if let Ok((rhs, q1, st1)) = factor(t, p + 1, st) {
            if let Ok((v, st2)) = combine(binop_of(k), ParseValue::Constant(c), rhs, line_at(t, p), st1) {
                lemma_term_rest_pos(t, q1, v, st2);
                if let Ok((w, q, st3)) = term_rest(t, q1, v, st2) {
                    if literal_arith(t, p, q) && q <= t.len() {
                        assert(literal_arith(t, p + 1, q1));
                        assert(rhs is Constant && st1 == st);
                        assert(v is Constant && st2 == st);
                        lemma_literal_term_rest(t, q1, v->Constant_0, st);
                    }
                }
            }
        }
    }
}

/// Constant folding: an expression made only of integer literals and the
/// operators `+ - * /` emits no instruction and yields a constant.
pub proof fn lemma_literal_expression_folds(t: Seq<TokenView>, p: nat, st: IrState)
    ensures
        term(t, p, st) matches Ok((v, q, st2)) ==> (literal_arith(t, p, q) ==> st2 == st
            && v is Constant),
{
    lemma_term_pos(t, p, st);
    lemma_factor_pos(t, p, st);
    lemma_literal_factor(t, p, st);
    if let Ok((v, q1, st1)) = factor(t, p, st) {
        lemma_term_rest_pos(t, q1, v, st1);
        if let Ok((w, q, st2)) = term_rest(t, q1, v, st1) {
            if literal_arith(t, p, q) {
                assert(literal_arith(t, p, q1));
                lemma_literal_term_rest(t, q1, v->Constant_0, st);
            }
        }
    }
}

} // verus!
