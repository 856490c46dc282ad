use vstd::prelude::*;
use crate::common::{BinOp, UnaryOp};
use crate::error::CompileError;
use crate::lexer::{tokens_view, LexToken, Token};
use crate::symbols::{symbol_index_from_identifier, uppercase_of, SymbolTable};

verus! {

/// A module as it was written.
#[derive(Debug, PartialEq, Eq)]
pub struct Module {
    pub name: String,
    pub arg_names: Vec<String>,
    pub stmts: Vec<Statement>,
    /// For each argument the symbol it is declared with, if any.
    pub arg_types: Vec<Option<u32>>,
    /// For each return the symbol it is declared with, if the module
    /// declares its returns.
    pub ret_types: Option<Vec<Option<u32>>>,
}

/// A statement of a module. `Terminator` and `Empty` stand for the closing
/// brace and a lone semicolon, and are no part of a parsed module.
#[derive(Debug, PartialEq, Eq)]
pub enum Statement {
    Terminator,
    Empty,
    VarBinding(Vec<String>, Expr),
    Output(Vec<Expr>),
}

/// An expression. Each arm of a `Match` holds a comparison, the value
/// compared with, and the result.
#[derive(Debug, PartialEq, Eq)]
pub enum Expr {
    Ident(String),
    Constant(i64),
    BinOp(Box<Expr>, BinOp, Box<Expr>),
    UnOp(UnaryOp, Box<Expr>),
    If(Box<Expr>, Box<Expr>, Option<Box<Expr>>),
    Match(Box<Expr>, Vec<(BinOp, Expr, Expr)>),
    SubModule(String, Vec<Expr>),
}

/// An item at the top of a program.
#[derive(Debug, PartialEq, Eq)]
pub enum ParseItem {
    Constant(String, i64),
    Module(Module),
}

/// The mathematical value of an expression.
pub ghost enum ExprV {
    Ident(Seq<char>),
    Constant(i64),
    BinOp(Box<ExprV>, BinOp, Box<ExprV>),
    UnOp(UnaryOp, Box<ExprV>),
    If(Box<ExprV>, Box<ExprV>, Option<Box<ExprV>>),
    Match(Box<ExprV>, Seq<(BinOp, ExprV, ExprV)>),
    SubModule(Seq<char>, Seq<ExprV>),
}

/// The mathematical value of a statement.
pub ghost enum StatementV {
    Terminator,
    Empty,
    VarBinding(Seq<Seq<char>>, ExprV),
    Output(Seq<ExprV>),
}

/// The declared returns as a mathematical value.
pub open spec fn returns_of(ret_types: Option<Vec<Option<u32>>>) -> Option<Seq<Option<u32>>> {
    match ret_types {
        Some(v) => Some(v@),
        None => None,
    }
}

/// The mathematical value of a parsed module.
pub ghost struct ModuleV {
    pub name: Seq<char>,
    pub arg_names: Seq<Seq<char>>,
    pub stmts: Seq<StatementV>,
    pub arg_types: Seq<Option<u32>>,
    pub ret_types: Option<Seq<Option<u32>>>,
}

/// The mathematical value of an item.
pub ghost enum ParseItemV {
    Constant(Seq<char>, i64),
    Module(ModuleV),
}

/// The values of the first `k` expressions.
pub open spec fn exprs_model(exprs: Seq<Expr>, k: int) -> Seq<ExprV>
    decreases exprs, k,
{
    if k <= 0 || k > exprs.len() {
        seq![]
    } else {
        exprs_model(exprs, k - 1).push(exprs[k - 1].model())
    }
}

/// The values of the first `k` arms of a match.
pub open spec fn arms_model(arms: Seq<(BinOp, Expr, Expr)>, k: int) -> Seq<(BinOp, ExprV, ExprV)>
    decreases arms, k,
{
    if k <= 0 || k > arms.len() {
        seq![]
    } else {
        arms_model(arms, k - 1).push((arms[k - 1].0, arms[k - 1].1.model(), arms[k - 1].2.model()))
    }
}

impl Expr {
    /// The value of the expression.
    pub open spec fn model(self) -> ExprV
        decreases self, 0int,
    {
        match self {
            Expr::Ident(name) => ExprV::Ident(name@),
            Expr::Constant(n) => ExprV::Constant(n),
            Expr::BinOp(l, op, r) => ExprV::BinOp(Box::new(l.model()), op, Box::new(r.model())),
            Expr::UnOp(op, arg) => ExprV::UnOp(op, Box::new(arg.model())),
            Expr::If(c, t, f) => ExprV::If(
                Box::new(c.model()),
                Box::new(t.model()),
                match f {
                    Some(other) => Some(Box::new(other.model())),
                    None => None,
                },
            ),
            Expr::Match(e, arms) => ExprV::Match(
                Box::new(e.model()),
                arms_model(arms@, arms@.len() as int),
            ),
            Expr::SubModule(name, args) => ExprV::SubModule(
                name@,
                exprs_model(args@, args@.len() as int),
            ),
        }
    }
}

impl View for Expr {
    type V = ExprV;

    open spec fn view(&self) -> ExprV {
        self.model()
    }
}

/// The texts of a list of names.
pub open spec fn names_view(names: Seq<String>) -> Seq<Seq<char>> {
    Seq::new(names.len(), |i: int| names[i]@)
}

impl View for Statement {
    type V = StatementV;

    open spec fn view(&self) -> StatementV {
        match *self {
            Statement::Terminator => StatementV::Terminator,
            Statement::Empty => StatementV::Empty,
            Statement::VarBinding(names, expr) => StatementV::VarBinding(
                names_view(names@),
                expr@,
            ),
            Statement::Output(exprs) => StatementV::Output(
                exprs_model(exprs@, exprs@.len() as int),
            ),
        }
    }
}

/// The values of a list of statements.
pub open spec fn stmts_view(stmts: Seq<Statement>) -> Seq<StatementV> {
    Seq::new(stmts.len(), |i: int| stmts[i]@)
}

impl View for Module {
    type V = ModuleV;

    open spec fn view(&self) -> ModuleV {
        ModuleV {
            name: self.name@,
            arg_names: names_view(self.arg_names@),
            stmts: stmts_view(self.stmts@),
            arg_types: self.arg_types@,
            ret_types: returns_of(self.ret_types),
        }
    }
}

impl View for ParseItem {
    type V = ParseItemV;

    open spec fn view(&self) -> ParseItemV {
        match *self {
            ParseItem::Constant(name, value) => ParseItemV::Constant(name@, value),
            ParseItem::Module(m) => ParseItemV::Module(m@),
        }
    }
}

/// The values of a list of items.
pub open spec fn items_view(items: Seq<ParseItem>) -> Seq<ParseItemV> {
    Seq::new(items.len(), |i: int| items[i]@)
}

/// The token at `pos`, if there is one.
pub open spec fn tok(tokens: Seq<Token>, pos: int) -> Option<Token> {
    if 0 <= pos < tokens.len() {
        Some(tokens[pos])
    } else {
        None
    }
}

/// The operator that a token stands for between two operands.
pub open spec fn binary_op(t: Token) -> Option<BinOp> {
    match t {
        Token::OpAdd => Some(BinOp::Add),
        Token::OpSub => Some(BinOp::Sub),
        Token::OpMul => Some(BinOp::Mul),
        Token::OpDiv => Some(BinOp::Div),
        Token::OpMod => Some(BinOp::Mod),
        Token::OpPower => Some(BinOp::Power),
        Token::OpBitAnd => Some(BinOp::BitAnd),
        Token::OpBitOr => Some(BinOp::BitOr),
        Token::OpBitXor => Some(BinOp::BitXor),
        Token::OpShiftLeft => Some(BinOp::ShiftLeft),
        Token::OpShiftRight => Some(BinOp::ShiftRight),
        Token::OpCmpEq => Some(BinOp::CmpEq),
        Token::OpCmpNeq => Some(BinOp::CmpNeq),
        Token::OpCmpLt => Some(BinOp::CmpLt),
        Token::OpCmpGt => Some(BinOp::CmpGt),
        Token::OpCmpLeq => Some(BinOp::CmpLeq),
        Token::OpCmpGeq => Some(BinOp::CmpGeq),
        _ => None,
    }
}

/// The operator that a token stands for before one operand.
pub open spec fn unary_op(t: Token) -> Option<UnaryOp> {
    match t {
        Token::OpSub => Some(UnaryOp::Negate),
        Token::OpAdd => Some(UnaryOp::Plus),
        Token::OpBitNot => Some(UnaryOp::NotBitwise),
        Token::OpNot => Some(UnaryOp::NotLogical),
        _ => None,
    }
}

/// A token that ends an expression and is left for what follows.
pub open spec fn ends_expr(t: Token) -> bool {
    t is OpParenClose || t is OpBraceClose || t is OpSemicolon || t is OpColon || t is OpComma
        || t is OpMatchArrow
}

/// The operands and operators that are left after every operator on top
/// that binds at least as tightly as `limit` was applied to the two
/// operands on top.
pub open spec fn reduced(exprs: Seq<ExprV>, ops: Seq<BinOp>, limit: int) -> (
    Seq<ExprV>,
    Seq<BinOp>,
)
    decreases ops.len(),
{
    if ops.len() == 0 || exprs.len() < 2 || ops.last().spec_prec() > limit {
        (exprs, ops)
    } else {
        reduced(
            exprs.subrange(0, exprs.len() - 2).push(
                ExprV::BinOp(
                    Box::new(exprs[exprs.len() - 2]),
                    ops.last(),
                    Box::new(exprs.last()),
                ),
            ),
            ops.drop_last(),
            limit,
        )
    }
}

/// The one expression that the operands and operators make up.
pub open spec fn finished(exprs: Seq<ExprV>, ops: Seq<BinOp>) -> ExprV {
    reduced(exprs, ops, 10).0[0]
}

/// The expression that starts at `pos`, and where it ends.
///
/// Operators apply in the order of their binding strength, those of one
/// strength from the left. A question mark makes what stands before it the
/// condition of two branches that a colon parts.
pub open spec fn expr_at(tokens: Seq<Token>, pos: int) -> Result<(ExprV, int), CompileError>
    decreases tokens.len() - pos, 3int,
{
    match leaf_at(tokens, pos) {
        Err(e) => Err(e),
        Ok((first, end_a)) => if end_a <= pos || end_a > tokens.len() {
            Err(CompileError::Syntax)
        } else {
            rest_at(tokens, end_a, seq![first], seq![])
        },
    }
}

/// What follows the operands and operators read so far: an operator and an
/// operand more, the branches of a conditional, or the end.
pub open spec fn rest_at(tokens: Seq<Token>, pos: int, exprs: Seq<ExprV>, ops: Seq<BinOp>) -> Result<
    (ExprV, int),
    CompileError,
>
    decreases tokens.len() - pos, 2int,
{
    match tok(tokens, pos) {
        None => Err(CompileError::Syntax),
        Some(t) => if binary_op(t) is Some {
            let op = binary_op(t)->Some_0;
            let stacks = reduced(exprs, ops, op.spec_prec() as int);
            match leaf_at(tokens, pos + 1) {
                Err(e) => Err(e),
                Ok((operand, end_b)) => if end_b <= pos + 1 || end_b > tokens.len() {
                    Err(CompileError::Syntax)
                } else {
                    rest_at(tokens, end_b, stacks.0.push(operand), stacks.1.push(op))
                },
            }
        } else if t is OpQuestion {
            match expr_at(tokens, pos + 1) {
                Err(e) => Err(e),
                Ok((val_true, end_b)) => if !(tok(tokens, end_b) == Some(Token::OpColon)) || end_b <= pos {
                    Err(CompileError::Syntax)
                } else {
                    match expr_at(tokens, end_b + 1) {
                        Err(e) => Err(e),
                        Ok((val_false, end_c)) => Ok(
                            (
                                ExprV::If(
                                    Box::new(finished(exprs, ops)),
                                    Box::new(val_true),
                                    Some(Box::new(val_false)),
                                ),
                                end_c,
                            ),
                        ),
                    }
                },
            }
        } else if ends_expr(t) {
            Ok((finished(exprs, ops), pos))
        } else {
            Err(CompileError::Syntax)
        },
    }
}

/// The operand that starts at `pos`: a name, a call, a match, a number, an
/// expression in parentheses, or a unary operator and the expression
/// behind it.
pub open spec fn leaf_at(tokens: Seq<Token>, pos: int) -> Result<(ExprV, int), CompileError>
    decreases tokens.len() - pos, 1int,
{
    match tok(tokens, pos) {
        None => Err(CompileError::Syntax),
        Some(Token::Ident(id)) => if tok(tokens, pos + 1) == Some(Token::OpParenOpen) {
            if tok(tokens, pos + 2) == Some(Token::OpParenClose) {
                Ok((ExprV::SubModule(id, seq![]), pos + 3))
            } else {
                match list_at(tokens, pos + 2, seq![]) {
                    Err(e) => Err(e),
                    Ok((args, p)) => Ok((ExprV::SubModule(id, args), p)),
                }
            }
        } else {
            Ok((ExprV::Ident(id), pos + 1))
        },
        Some(Token::KeyMatch) => if !(tok(tokens, pos + 1) == Some(Token::OpParenOpen)) {
            Err(CompileError::Syntax)
        } else {
            match expr_at(tokens, pos + 2) {
                Err(e) => Err(e),
                Ok((subject, end_a)) => if !(tok(tokens, end_a) == Some(Token::OpParenClose)) || !(tok(
                    tokens,
                    end_a + 1,
                ) == Some(Token::OpBraceOpen)) || end_a <= pos {
                    Err(CompileError::Syntax)
                } else {
                    match arms_at(tokens, end_a + 2, seq![]) {
                        Err(e) => Err(e),
                        Ok((arms, end_b)) => Ok((ExprV::Match(Box::new(subject), arms), end_b)),
                    }
                },
            }
        },
        Some(Token::Number(n)) => Ok((ExprV::Constant(n), pos + 1)),
        Some(Token::OpParenOpen) => match expr_at(tokens, pos + 1) {
            Err(e) => Err(e),
            Ok((inner, end_a)) => if tok(tokens, end_a) == Some(Token::OpParenClose) {
                Ok((inner, end_a + 1))
            } else {
                Err(CompileError::Syntax)
            },
        },
        Some(t) => if unary_op(t) is Some {
            match expr_at(tokens, pos + 1) {
                Err(e) => Err(e),
                Ok((arg, p)) => Ok((ExprV::UnOp(unary_op(t)->Some_0, Box::new(arg)), p)),
            }
        } else {
            Err(CompileError::Syntax)
        },
    }
}

/// The expressions from `pos` on, parted by commas and closed by a
/// parenthesis, after those of `acc`.
pub open spec fn list_at(tokens: Seq<Token>, pos: int, acc: Seq<ExprV>) -> Result<
    (Seq<ExprV>, int),
    CompileError,
>
    decreases tokens.len() - pos, 4int,
{
    match expr_at(tokens, pos) {
        Err(e) => Err(e),
        Ok((item, end_a)) => if end_a <= pos {
            Err(CompileError::Syntax)
        } else {
            match tok(tokens, end_a) {
                Some(Token::OpComma) => list_at(tokens, end_a + 1, acc.push(item)),
                Some(Token::OpParenClose) => Ok((acc.push(item), end_a + 1)),
                _ => Err(CompileError::Syntax),
            }
        },
    }
}

/// The comparison that an arm of a match opens with.
pub open spec fn compare_op(t: Token) -> Option<BinOp> {
    match t {
        Token::OpCmpEq => Some(BinOp::CmpEq),
        Token::OpCmpNeq => Some(BinOp::CmpNeq),
        Token::OpCmpLt => Some(BinOp::CmpLt),
        Token::OpCmpGt => Some(BinOp::CmpGt),
        Token::OpCmpLeq => Some(BinOp::CmpLeq),
        Token::OpCmpGeq => Some(BinOp::CmpGeq),
        _ => None,
    }
}

/// The arms of a match from `pos` on, parted by commas and closed by a
/// brace, after those of `acc`. An arm is a comparison, equality where
/// none is written, the value compared with, an arrow and the result.
pub open spec fn arms_at(tokens: Seq<Token>, pos: int, acc: Seq<(BinOp, ExprV, ExprV)>) -> Result<
    (Seq<(BinOp, ExprV, ExprV)>, int),
    CompileError,
>
    decreases tokens.len() - pos, 4int,
{
    match tok(tokens, pos) {
        None => Err(CompileError::Syntax),
        Some(t) => if t is OpBraceClose {
            Ok((acc, pos + 1))
        } else {
            let op = match compare_op(t) {
                Some(op) => op,
                None => BinOp::CmpEq,
            };
            let start = if compare_op(t) is Some {
                pos + 1
            } else {
                pos
            };
            match expr_at(tokens, start) {
                Err(e) => Err(e),
                Ok((test, end_a)) => if !(tok(tokens, end_a) == Some(Token::OpMatchArrow)) || end_a
                    <= start {
                    Err(CompileError::Syntax)
                } else {
                    match expr_at(tokens, end_a + 1) {
                        Err(e) => Err(e),
                        Ok((result, end_b)) => if end_b <= end_a {
                            Err(CompileError::Syntax)
                        } else {
                            match tok(tokens, end_b) {
                                Some(Token::OpBraceClose) => Ok(
                                    (acc.push((op, test, result)), end_b + 1),
                                ),
                                Some(Token::OpComma) => arms_at(
                                    tokens,
                                    end_b + 1,
                                    acc.push((op, test, result)),
                                ),
                                _ => Err(CompileError::Syntax),
                            }
                        },
                    }
                },
            }
        },
    }
}

/// The names from `pos` on, parted by commas and closed by a parenthesis,
/// after those of `acc`.
pub open spec fn names_at(tokens: Seq<Token>, pos: int, acc: Seq<Seq<char>>) -> Result<
    (Seq<Seq<char>>, int),
    CompileError,
>
    decreases tokens.len() - pos,
{
    match tok(tokens, pos) {
        Some(Token::Ident(name)) => match tok(tokens, pos + 1) {
            Some(Token::OpComma) => names_at(tokens, pos + 2, acc.push(name)),
            Some(Token::OpParenClose) => Ok((acc.push(name), pos + 2)),
            _ => Err(CompileError::Syntax),
        },
        _ => Err(CompileError::Syntax),
    }
}

/// The statement that starts at `pos`, and where it ends. A lone semicolon
/// is `Empty`, the brace that closes the module `Terminator`.
pub open spec fn stmt_at(tokens: Seq<Token>, pos: int) -> Result<(StatementV, int), CompileError> {
    match tok(tokens, pos) {
        Some(Token::KeyOutput) => if !(tok(tokens, pos + 1) == Some(Token::OpParenOpen)) {
            Err(CompileError::Syntax)
        } else {
            match list_at(tokens, pos + 2, seq![]) {
                Err(e) => Err(e),
                Ok((outputs, p)) => Ok((StatementV::Output(outputs), p)),
            }
        },
        Some(Token::KeyLet) => if tok(tokens, pos + 1) == Some(Token::OpParenOpen) {
            match names_at(tokens, pos + 2, seq![]) {
                Err(e) => Err(e),
                Ok((names, end_a)) => if !(tok(tokens, end_a) == Some(Token::OpAssign)) {
                    Err(CompileError::Syntax)
                } else {
                    match expr_at(tokens, end_a + 1) {
                        Err(e) => Err(e),
                        Ok((value, end_b)) => Ok((StatementV::VarBinding(names, value), end_b)),
                    }
                },
            }
        } else {
            match tok(tokens, pos + 1) {
                Some(Token::Ident(name)) => if !(tok(tokens, pos + 2) == Some(Token::OpAssign)) {
                    Err(CompileError::Syntax)
                } else {
                    match expr_at(tokens, pos + 3) {
                        Err(e) => Err(e),
                        Ok((value, p)) => Ok((StatementV::VarBinding(seq![name], value), p)),
                    }
                },
                _ => Err(CompileError::Syntax),
            }
        },
        Some(Token::OpSemicolon) => Ok((StatementV::Empty, pos + 1)),
        Some(Token::OpBraceClose) => Ok((StatementV::Terminator, pos + 1)),
        _ => Err(CompileError::Syntax),
    }
}

/// The statements from `pos` on up to the closing brace, after those of
/// `acc`.
pub open spec fn stmts_at(tokens: Seq<Token>, pos: int, acc: Seq<StatementV>) -> Result<
    (Seq<StatementV>, int),
    CompileError,
>
    decreases tokens.len() - pos,
{
    match stmt_at(tokens, pos) {
        Err(e) => Err(e),
        Ok((stmt, p)) => if p <= pos || p > tokens.len() {
            Err(CompileError::Syntax)
        } else {
            match stmt {
                StatementV::Terminator => Ok((acc, p)),
                StatementV::Empty => stmts_at(tokens, p, acc),
                _ => stmts_at(tokens, p, acc.push(stmt)),
            }
        },
    }
}

/// The symbol at `pos`: its index in the table. `Undefined` where the table
/// lacks it.
pub open spec fn symbol_at(tokens: Seq<Token>, pos: int, table: &SymbolTable) -> Result<
    u32,
    CompileError,
> {
    match tok(tokens, pos) {
        Some(Token::Symbol(name)) => match table.symbol_of(name) {
            Some(index) => Ok(index as u32),
            None => Err(CompileError::Undefined),
        },
        _ => Err(CompileError::Syntax),
    }
}

/// The arguments from `pos` on, each a name and, behind a colon, its
/// symbol, parted by commas and closed by a parenthesis.
pub open spec fn params_at(
    tokens: Seq<Token>,
    pos: int,
    names: Seq<Seq<char>>,
    types: Seq<Option<u32>>,
    table: &SymbolTable,
) -> Result<(Seq<Seq<char>>, Seq<Option<u32>>, int), CompileError>
    decreases tokens.len() - pos,
{
    match tok(tokens, pos) {
        Some(Token::Ident(name)) => {
            let typed = tok(tokens, pos + 1) == Some(Token::OpColon);
            let ty = if typed {
                match symbol_at(tokens, pos + 2, table) {
                    Err(e) => Err(e),
                    Ok(symbol) => Ok(Some(symbol)),
                }
            } else {
                Ok(None)
            };
            let next = if typed {
                pos + 3
            } else {
                pos + 1
            };
            match ty {
                Err(e) => Err(e),
                Ok(ty) => match tok(tokens, next) {
                    Some(Token::OpComma) => params_at(
                        tokens,
                        next + 1,
                        names.push(name),
                        types.push(ty),
                        table,
                    ),
                    Some(Token::OpParenClose) => Ok((names.push(name), types.push(ty), next + 1)),
                    _ => Err(CompileError::Syntax),
                },
            }
        },
        _ => Err(CompileError::Syntax),
    }
}

/// The symbols from `pos` on, parted by commas and closed by a parenthesis,
/// after those of `acc`.
pub open spec fn symbols_at(
    tokens: Seq<Token>,
    pos: int,
    acc: Seq<Option<u32>>,
    table: &SymbolTable,
) -> Result<(Seq<Option<u32>>, int), CompileError>
    decreases tokens.len() - pos,
{
    match symbol_at(tokens, pos, table) {
        Err(e) => Err(e),
        Ok(symbol) => match tok(tokens, pos + 1) {
            Some(Token::OpComma) => symbols_at(tokens, pos + 2, acc.push(Some(symbol)), table),
            Some(Token::OpParenClose) => Ok((acc.push(Some(symbol)), pos + 2)),
            _ => Err(CompileError::Syntax),
        },
    }
}

/// The declared returns at `pos`, if an arrow opens them: one symbol, or
/// symbols in parentheses.
pub open spec fn returns_at(tokens: Seq<Token>, pos: int, table: &SymbolTable) -> Result<
    (Option<Seq<Option<u32>>>, int),
    CompileError,
> {
    if !(tok(tokens, pos) == Some(Token::OpThinArrow)) {
        Ok((None, pos))
    } else if tok(tokens, pos + 1) == Some(Token::OpParenOpen) {
        if tok(tokens, pos + 2) == Some(Token::OpParenClose) {
            Ok((Some(seq![]), pos + 3))
        } else {
            match symbols_at(tokens, pos + 2, seq![], table) {
                Err(e) => Err(e),
                Ok((types, p)) => Ok((Some(types), p)),
            }
        }
    } else {
        match symbol_at(tokens, pos + 1, table) {
            Err(e) => Err(e),
            Ok(symbol) => Ok((Some(seq![Some(symbol)]), pos + 2)),
        }
    }
}

/// The module whose keyword stands at `pos`, and where it ends.
pub open spec fn module_at(tokens: Seq<Token>, pos: int, table: &SymbolTable) -> Result<
    (ModuleV, int),
    CompileError,
> {
    match tok(tokens, pos + 1) {
        Some(Token::Ident(name)) => if !(tok(tokens, pos + 2) == Some(Token::OpParenOpen)) {
            Err(CompileError::Syntax)
        } else {
            let params = if tok(tokens, pos + 3) == Some(Token::OpParenClose) {
                Ok((seq![], seq![], pos + 4))
            } else {
                params_at(tokens, pos + 3, seq![], seq![], table)
            };
            match params {
                Err(e) => Err(e),
                Ok((arg_names, arg_types, end_a)) => match returns_at(tokens, end_a, table) {
                    Err(e) => Err(e),
                    Ok((ret_types, end_b)) => if !(tok(tokens, end_b) == Some(Token::OpBraceOpen)) {
                        Err(CompileError::Syntax)
                    } else {
                        match stmts_at(tokens, end_b + 1, seq![]) {
                            Err(e) => Err(e),
                            Ok((stmts, end_c)) => Ok(
                                (ModuleV { name, arg_names, stmts, arg_types, ret_types }, end_c),
                            ),
                        }
                    },
                },
            }
        },
        _ => Err(CompileError::Syntax),
    }
}

/// The constant whose keyword stands at `pos`, and where it ends: a name,
/// an equals sign, a number with or without a minus before it, and a
/// semicolon.
pub open spec fn const_at(tokens: Seq<Token>, pos: int) -> Result<(ParseItemV, int), CompileError> {
    match tok(tokens, pos + 1) {
        Some(Token::Ident(name)) => if !(tok(tokens, pos + 2) == Some(Token::OpAssign)) {
            Err(CompileError::Syntax)
        } else {
            let negative = tok(tokens, pos + 3) == Some(Token::OpSub);
            let at = if negative {
                pos + 4
            } else {
                pos + 3
            };
            match tok(tokens, at) {
                Some(Token::Number(n)) => if !(tok(tokens, at + 1) == Some(Token::OpSemicolon)) {
                    Err(CompileError::Syntax)
                } else {
                    Ok(
                        (
                            ParseItemV::Constant(
                                name,
                                if negative && n != i64::MIN {
                                    (0 - n) as i64
                                } else {
                                    n
                                },
                            ),
                            at + 2,
                        ),
                    )
                },
                _ => Err(CompileError::Syntax),
            }
        },
        _ => Err(CompileError::Syntax),
    }
}

/// The items from `pos` on to the end of the tokens, after those of `acc`.
pub open spec fn items_at(
    tokens: Seq<Token>,
    pos: int,
    acc: Seq<ParseItemV>,
    table: &SymbolTable,
) -> Result<Seq<ParseItemV>, CompileError>
    decreases tokens.len() - pos,
{
    match tok(tokens, pos) {
        None => Ok(acc),
        Some(Token::KeyMod) => match module_at(tokens, pos, table) {
            Err(e) => Err(e),
            Ok((m, p)) => if p <= pos || p > tokens.len() {
                Err(CompileError::Syntax)
            } else {
                items_at(tokens, p, acc.push(ParseItemV::Module(m)), table)
            },
        },
        Some(Token::KeyConst) => match const_at(tokens, pos) {
            Err(e) => Err(e),
            Ok((item, p)) => if p <= pos || p > tokens.len() {
                Err(CompileError::Syntax)
            } else {
                items_at(tokens, p, acc.push(item), table)
            },
        },
        _ => Err(CompileError::Syntax),
    }
}

/// The items of a program text.
pub open spec fn parsed(source: Seq<char>, table: &SymbolTable) -> Result<
    Seq<ParseItemV>,
    CompileError,
> {
    match crate::lexer::tokens_of(source) {
        Err(e) => Err(e),
        Ok(tokens) => items_at(tokens, 0, seq![], table),
    }
}

/// The values of a stack of expressions.
pub open spec fn stack_view(stack: Seq<Expr>) -> Seq<ExprV> {
    Seq::new(stack.len(), |i: int| stack[i]@)
}

proof fn lemma_exprs_model_prefix(exprs: Seq<Expr>, more: Expr, k: int)
    requires
        0 <= k <= exprs.len(),
    ensures
        exprs_model(exprs.push(more), k) == exprs_model(exprs, k),
    decreases k,
{
    if k > 0 {
        lemma_exprs_model_prefix(exprs, more, k - 1);
        assert(exprs.push(more)[k - 1] == exprs[k - 1]);
    }
}

/// One expression more gives one value more.
pub proof fn lemma_exprs_model_push(exprs: Seq<Expr>, more: Expr)
    ensures
        exprs_model(exprs.push(more), exprs.len() as int + 1) == exprs_model(
            exprs,
            exprs.len() as int,
        ).push(more@),
{
    lemma_exprs_model_prefix(exprs, more, exprs.len() as int);
    assert(exprs.push(more)[exprs.len() as int] == more);
}

proof fn lemma_arms_model_prefix(
    arms: Seq<(BinOp, Expr, Expr)>,
    more: (BinOp, Expr, Expr),
    k: int,
)
    requires
        0 <= k <= arms.len(),
    ensures
        arms_model(arms.push(more), k) == arms_model(arms, k),
    decreases k,
{
    if k > 0 {
        lemma_arms_model_prefix(arms, more, k - 1);
        assert(arms.push(more)[k - 1] == arms[k - 1]);
    }
}

/// One arm more gives one value more.
pub proof fn lemma_arms_model_push(arms: Seq<(BinOp, Expr, Expr)>, more: (BinOp, Expr, Expr))
    ensures
        arms_model(arms.push(more), arms.len() as int + 1) == arms_model(arms, arms.len() as int).push(
            (more.0, more.1@, more.2@),
        ),
{
    lemma_arms_model_prefix(arms, more, arms.len() as int);
    assert(arms.push(more)[arms.len() as int] == more);
}

/// The operator that a token stands for between two operands.
fn binary_op_of(token: &LexToken) -> (r: Option<BinOp>)
    ensures
        r == binary_op(token@),
{
    match token {
        LexToken::OpAdd => Some(BinOp::Add),
        LexToken::OpSub => Some(BinOp::Sub),
        LexToken::OpMul => Some(BinOp::Mul),
        LexToken::OpDiv => Some(BinOp::Div),
        LexToken::OpMod => Some(BinOp::Mod),
        LexToken::OpPower => Some(BinOp::Power),
        LexToken::OpBitAnd => Some(BinOp::BitAnd),
        LexToken::OpBitOr => Some(BinOp::BitOr),
        LexToken::OpBitXor => Some(BinOp::BitXor),
        LexToken::OpShiftLeft => Some(BinOp::ShiftLeft),
        LexToken::OpShiftRight => Some(BinOp::ShiftRight),
        LexToken::OpCmpEq => Some(BinOp::CmpEq),
        LexToken::OpCmpNeq => Some(BinOp::CmpNeq),
        LexToken::OpCmpLt => Some(BinOp::CmpLt),
        LexToken::OpCmpGt => Some(BinOp::CmpGt),
        LexToken::OpCmpLeq => Some(BinOp::CmpLeq),
        LexToken::OpCmpGeq => Some(BinOp::CmpGeq),
        _ => None,
    }
}

fn unary_op_of(token: &LexToken) -> (r: Option<UnaryOp>)
    ensures
        r == unary_op(token@),
{
    match token {
        LexToken::OpSub => Some(UnaryOp::Negate),
        LexToken::OpAdd => Some(UnaryOp::Plus),
        LexToken::OpBitNot => Some(UnaryOp::NotBitwise),
        LexToken::OpNot => Some(UnaryOp::NotLogical),
        _ => None,
    }
}

fn compare_op_of(token: &LexToken) -> (r: Option<BinOp>)
    ensures
        r == compare_op(token@),
{
    match token {
        LexToken::OpCmpEq => Some(BinOp::CmpEq),
        LexToken::OpCmpNeq => Some(BinOp::CmpNeq),
        LexToken::OpCmpLt => Some(BinOp::CmpLt),
        LexToken::OpCmpGt => Some(BinOp::CmpGt),
        LexToken::OpCmpLeq => Some(BinOp::CmpLeq),
        LexToken::OpCmpGeq => Some(BinOp::CmpGeq),
        _ => None,
    }
}

/// The token at `pos`, if there is one.
pub fn peek(tokens: &Vec<LexToken>, pos: usize) -> (r: Option<&LexToken>)
    ensures
        match r {
            Some(t) => tok(tokens_view(tokens@), pos as int) == Some(t@) && pos < tokens@.len()
                && *t == tokens@[pos as int],
            None => tok(tokens_view(tokens@), pos as int) is None,
        },
{
    if pos < tokens.len() {
        Some(&tokens[pos])
    } else {
        None
    }
}

/// Operands that are one more than the operators stay so.
pub proof fn lemma_reduced_shape(exprs: Seq<ExprV>, ops: Seq<BinOp>, limit: int)
    requires
        exprs.len() == ops.len() + 1,
    ensures
        reduced(exprs, ops, limit).0.len() == reduced(exprs, ops, limit).1.len() + 1,
    decreases ops.len(),
{
    if !(ops.len() == 0 || exprs.len() < 2 || ops.last().spec_prec() > limit) {
        lemma_reduced_shape(
            exprs.subrange(0, exprs.len() - 2).push(
                ExprV::BinOp(
                    Box::new(exprs[exprs.len() - 2]),
                    ops.last(),
                    Box::new(exprs.last()),
                ),
            ),
            ops.drop_last(),
            limit,
        );
    }
}

/// Applies every operator on top that binds at least as tightly as `limit`
/// to the two operands on top.
fn reduce(expr_stack: &mut Vec<Expr>, op_stack: &mut Vec<BinOp>, limit: u32)
    ensures
        (stack_view(final(expr_stack)@), final(op_stack)@) == reduced(
            stack_view(old(expr_stack)@),
            old(op_stack)@,
            limit as int,
        ),
{
    loop
        invariant
            reduced(stack_view(old(expr_stack)@), old(op_stack)@, limit as int) == reduced(
                stack_view(expr_stack@),
                op_stack@,
                limit as int,
            ),
        ensures
            (stack_view(expr_stack@), op_stack@) == reduced(
                stack_view(old(expr_stack)@),
                old(op_stack)@,
                limit as int,
            ),
        decreases op_stack@.len(),
    {
        if op_stack.len() == 0 || expr_stack.len() < 2 {
            break ;
        }
        if op_stack[op_stack.len() - 1].prec() > limit {
            break ;
        }
        let ghost exprs = stack_view(expr_stack@);
        let ghost ops = op_stack@;
        let op = op_stack.pop().unwrap();
        let rhs = expr_stack.pop().unwrap();
        let lhs = expr_stack.pop().unwrap();
        let ghost lhs_v = lhs@;
        let ghost rhs_v = rhs@;
        expr_stack.push(Expr::BinOp(Box::new(lhs), op, Box::new(rhs)));
        proof {
            assert(op_stack@ =~= ops.drop_last());
            assert(stack_view(expr_stack@) =~= exprs.subrange(0, exprs.len() - 2).push(
                ExprV::BinOp(Box::new(exprs[exprs.len() - 2]), ops.last(), Box::new(exprs.last())),
            ));
        }
    }
}

/// Parses the expression that starts at `pos`. Returns it and where it
/// ends.
pub fn parse_expr(tokens: &Vec<LexToken>, pos: usize) -> (r: Result<(Expr, usize), CompileError>)
    ensures
        match expr_at(tokens_view(tokens@), pos as int) {
            Ok((value, end)) => r is Ok && r->Ok_0.0@ == value && r->Ok_0.1 == end && pos < end
                <= tokens@.len(),
            Err(e) => r is Err && r->Err_0 == e,
        },
    decreases tokens@.len() - pos, 3int,
{
    let ghost tv = tokens_view(tokens@);
    let n = tokens.len();
    let (first, first_end) = parse_leaf(tokens, pos)?;
    let ghost first_v = first@;
    let mut expr_stack: Vec<Expr> = Vec::new();
    let mut op_stack: Vec<BinOp> = Vec::new();
    expr_stack.push(first);
    assert(stack_view(expr_stack@) =~= seq![first_v]);
    let mut at = first_end;
    loop
        invariant
            tv == tokens_view(tokens@),
            n == tokens@.len(),
            pos < at <= tokens@.len(),
            expr_stack@.len() == op_stack@.len() + 1,
            expr_at(tv, pos as int) == rest_at(tv, at as int, stack_view(expr_stack@), op_stack@),
        decreases tokens@.len() - at,
    {
        let next_tok = match peek(tokens, at) {
            None => {
                return Err(CompileError::Syntax);
            },
            Some(t) => t,
        };
        match binary_op_of(next_tok) {
            Some(new_op) => {
                proof {
                    lemma_reduced_shape(
                        stack_view(expr_stack@),
                        op_stack@,
                        new_op.spec_prec() as int,
                    );
                }
                reduce(&mut expr_stack, &mut op_stack, new_op.prec());
                let ghost exprs = stack_view(expr_stack@);
                let ghost ops = op_stack@;
                let (operand, operand_end) = parse_leaf(tokens, at + 1)?;
                let ghost operand_v = operand@;
                op_stack.push(new_op);
                expr_stack.push(operand);
                assert(stack_view(expr_stack@) =~= exprs.push(operand_v));
                at = operand_end;
            },
            None => {
                match next_tok {
                    LexToken::OpQuestion => {
                        proof {
                            lemma_reduced_shape(stack_view(expr_stack@), op_stack@, 10);
                        }
                        reduce(&mut expr_stack, &mut op_stack, 10);
                        let (val_true, true_end) = parse_expr(tokens, at + 1)?;
                        match peek(tokens, true_end) {
                            Some(LexToken::OpColon) => {},
                            _ => {
                                return Err(CompileError::Syntax);
                            },
                        }
                        let (val_false, false_end) = parse_expr(tokens, true_end + 1)?;
                        let cond = expr_stack.swap_remove(0);
                        return Ok(
                            (
                                Expr::If(
                                    Box::new(cond),
                                    Box::new(val_true),
                                    Some(Box::new(val_false)),
                                ),
                                false_end,
                            ),
                        );
                    },
                    LexToken::OpParenClose | LexToken::OpBraceClose | LexToken::OpSemicolon
                    | LexToken::OpColon | LexToken::OpComma | LexToken::OpMatchArrow => {
                        proof {
                            lemma_reduced_shape(stack_view(expr_stack@), op_stack@, 10);
                        }
                        reduce(&mut expr_stack, &mut op_stack, 10);
                        let done = expr_stack.swap_remove(0);
                        return Ok((done, at));
                    },
                    _ => {
                        return Err(CompileError::Syntax);
                    },
                }
            },
        }
    }
}

/// Parses the operand that starts at `pos`. Returns it and where it ends.
pub fn parse_leaf(tokens: &Vec<LexToken>, pos: usize) -> (r: Result<(Expr, usize), CompileError>)
    ensures
        match leaf_at(tokens_view(tokens@), pos as int) {
            Ok((value, end)) => r is Ok && r->Ok_0.0@ == value && r->Ok_0.1 == end && pos < end
                <= tokens@.len(),
            Err(e) => r is Err && r->Err_0 == e,
        },
    decreases tokens@.len() - pos, 1int,
{
    let ghost tv = tokens_view(tokens@);
    let n = tokens.len();
    let token = match peek(tokens, pos) {
        None => {
            return Err(CompileError::Syntax);
        },
        Some(t) => t,
    };
    match token {
        LexToken::Ident(id) => {
            match peek(tokens, pos + 1) {
                Some(LexToken::OpParenOpen) => {
                    match peek(tokens, pos + 2) {
                        Some(LexToken::OpParenClose) => {
                            let args: Vec<Expr> = Vec::new();
                            assert(exprs_model(args@, 0) =~= seq![]);
                            Ok((Expr::SubModule(id.clone(), args), pos + 3))
                        },
                        _ => {
                            let (args, end) = parse_list(tokens, pos + 2)?;
                            Ok((Expr::SubModule(id.clone(), args), end))
                        },
                    }
                },
                _ => Ok((Expr::Ident(id.clone()), pos + 1)),
            }
        },
        LexToken::KeyMatch => {
            match peek(tokens, pos + 1) {
                Some(LexToken::OpParenOpen) => {},
                _ => {
                    return Err(CompileError::Syntax);
                },
            }
            let (subject, subject_end) = parse_expr(tokens, pos + 2)?;
            match peek(tokens, subject_end) {
                Some(LexToken::OpParenClose) => {},
                _ => {
                    return Err(CompileError::Syntax);
                },
            }
            match peek(tokens, subject_end + 1) {
                Some(LexToken::OpBraceOpen) => {},
                _ => {
                    return Err(CompileError::Syntax);
                },
            }
            let (arms, end) = parse_arms(tokens, subject_end + 2)?;
            Ok((Expr::Match(Box::new(subject), arms), end))
        },
        LexToken::Number(num) => Ok((Expr::Constant(*num), pos + 1)),
        LexToken::OpParenOpen => {
            let (inner, inner_end) = parse_expr(tokens, pos + 1)?;
            match peek(tokens, inner_end) {
                Some(LexToken::OpParenClose) => Ok((inner, inner_end + 1)),
                _ => Err(CompileError::Syntax),
            }
        },
        other => match unary_op_of(other) {
            Some(op) => {
                let (arg, end) = parse_expr(tokens, pos + 1)?;
                Ok((Expr::UnOp(op, Box::new(arg)), end))
            },
            None => Err(CompileError::Syntax),
        },
    }
}

/// Parses expressions parted by commas and closed by a parenthesis.
pub fn parse_list(tokens: &Vec<LexToken>, pos: usize) -> (r: Result<
    (Vec<Expr>, usize),
    CompileError,
>)
    ensures
        match list_at(tokens_view(tokens@), pos as int, seq![]) {
            Ok((values, end)) => r is Ok && exprs_model(r->Ok_0.0@, r->Ok_0.0@.len() as int)
                == values && r->Ok_0.1 == end && pos < end <= tokens@.len(),
            Err(e) => r is Err && r->Err_0 == e,
        },
    decreases tokens@.len() - pos, 5int,
{
    let ghost tv = tokens_view(tokens@);
    let n = tokens.len();
    let mut out: Vec<Expr> = Vec::new();
    let mut at = pos;
    assert(exprs_model(out@, 0) =~= seq![]);
    if pos >= n {
        assert(leaf_at(tv, pos as int) is Err);
        assert(expr_at(tv, pos as int) is Err);
        return Err(CompileError::Syntax);
    }
    loop
        invariant
            tv == tokens_view(tokens@),
            n == tokens@.len(),
            pos <= at <= tokens@.len(),
            list_at(tv, pos as int, seq![]) == list_at(
                tv,
                at as int,
                exprs_model(out@, out@.len() as int),
            ),
        decreases tokens@.len() - at,
    {
        let (item, item_end) = parse_expr(tokens, at)?;
        proof {
            lemma_exprs_model_push(out@, item);
        }
        out.push(item);
        match peek(tokens, item_end) {
            Some(LexToken::OpComma) => {
                at = item_end + 1;
            },
            Some(LexToken::OpParenClose) => {
                return Ok((out, item_end + 1));
            },
            _ => {
                return Err(CompileError::Syntax);
            },
        }
    }
}

/// Parses the arms of a match, parted by commas and closed by a brace.
pub fn parse_arms(tokens: &Vec<LexToken>, pos: usize) -> (r: Result<
    (Vec<(BinOp, Expr, Expr)>, usize),
    CompileError,
>)
    ensures
        match arms_at(tokens_view(tokens@), pos as int, seq![]) {
            Ok((values, end)) => r is Ok && arms_model(r->Ok_0.0@, r->Ok_0.0@.len() as int)
                == values && r->Ok_0.1 == end && pos < end <= tokens@.len(),
            Err(e) => r is Err && r->Err_0 == e,
        },
    decreases tokens@.len() - pos, 5int,
{
    let ghost tv = tokens_view(tokens@);
    let n = tokens.len();
    let mut out: Vec<(BinOp, Expr, Expr)> = Vec::new();
    let mut at = pos;
    assert(arms_model(out@, 0) =~= seq![]);
    if pos >= n {
        return Err(CompileError::Syntax);
    }
    loop
        invariant
            tv == tokens_view(tokens@),
            n == tokens@.len(),
            pos <= at <= tokens@.len(),
            arms_at(tv, pos as int, seq![]) == arms_at(
                tv,
                at as int,
                arms_model(out@, out@.len() as int),
            ),
        decreases tokens@.len() - at,
    {
        let token = match peek(tokens, at) {
            None => {
                return Err(CompileError::Syntax);
            },
            Some(t) => t,
        };
        if let LexToken::OpBraceClose = token {
            return Ok((out, at + 1));
        }
        let (op, start) = match compare_op_of(token) {
            Some(op) => (op, at + 1),
            None => (BinOp::CmpEq, at),
        };
        let (test, test_end) = parse_expr(tokens, start)?;
        match peek(tokens, test_end) {
            Some(LexToken::OpMatchArrow) => {},
            _ => {
                return Err(CompileError::Syntax);
            },
        }
        let (result, result_end) = parse_expr(tokens, test_end + 1)?;
        proof {
            lemma_arms_model_push(out@, (op, test, result));
        }
        out.push((op, test, result));
        match peek(tokens, result_end) {
            Some(LexToken::OpBraceClose) => {
                return Ok((out, result_end + 1));
            },
            Some(LexToken::OpComma) => {
                at = result_end + 1;
            },
            _ => {
                return Err(CompileError::Syntax);
            },
        }
    }
}

/// Parses names parted by commas and closed by a parenthesis.
fn parse_names(tokens: &Vec<LexToken>, pos: usize) -> (r: Result<(Vec<String>, usize), CompileError>)
    ensures
        match names_at(tokens_view(tokens@), pos as int, seq![]) {
            Ok((names, end)) => r is Ok && names_view(r->Ok_0.0@) == names && r->Ok_0.1 == end
                && pos < end <= tokens@.len(),
            Err(e) => r is Err && r->Err_0 == e,
        },
{
    let ghost tv = tokens_view(tokens@);
    let n = tokens.len();
    let mut out: Vec<String> = Vec::new();
    let mut at = pos;
    assert(names_view(out@) =~= seq![]);
    if pos >= n {
        return Err(CompileError::Syntax);
    }
    loop
        invariant
            tv == tokens_view(tokens@),
            n == tokens@.len(),
            pos <= at < tokens@.len(),
            names_at(tv, pos as int, seq![]) == names_at(tv, at as int, names_view(out@)),
        decreases tokens@.len() - at,
    {
        let name = match peek(tokens, at) {
            Some(LexToken::Ident(name)) => name.clone(),
            _ => {
                return Err(CompileError::Syntax);
            },
        };
        let ghost before = names_view(out@);
        out.push(name);
        assert(names_view(out@) =~= before.push(name@));
        match peek(tokens, at + 1) {
            Some(LexToken::OpComma) => {
                if at + 2 >= n {
                    assert(names_at(tv, at + 2, names_view(out@)) is Err);
                    return Err(CompileError::Syntax);
                }
                at = at + 2;
            },
            Some(LexToken::OpParenClose) => {
                return Ok((out, at + 2));
            },
            _ => {
                return Err(CompileError::Syntax);
            },
        }
    }
}

/// Parses the statement that starts at `pos`. Returns it and where it
/// ends.
pub fn parse_stmt(tokens: &Vec<LexToken>, pos: usize) -> (r: Result<(Statement, usize), CompileError>)
    ensures
        match stmt_at(tokens_view(tokens@), pos as int) {
            Ok((stmt, end)) => r is Ok && r->Ok_0.0@ == stmt && r->Ok_0.1 == end && pos < end
                <= tokens@.len(),
            Err(e) => r is Err && r->Err_0 == e,
        },
{
    let ghost tv = tokens_view(tokens@);
    let n = tokens.len();
    match peek(tokens, pos) {
        Some(LexToken::KeyOutput) => {
            match peek(tokens, pos + 1) {
                Some(LexToken::OpParenOpen) => {},
                _ => {
                    return Err(CompileError::Syntax);
                },
            }
            let (out_args, end) = parse_list(tokens, pos + 2)?;
            Ok((Statement::Output(out_args), end))
        },
        Some(LexToken::KeyLet) => {
            match peek(tokens, pos + 1) {
                Some(LexToken::OpParenOpen) => {
                    let (idents, names_end) = parse_names(tokens, pos + 2)?;
                    match peek(tokens, names_end) {
                        Some(LexToken::OpAssign) => {},
                        _ => {
                            return Err(CompileError::Syntax);
                        },
                    }
                    let (value, end) = parse_expr(tokens, names_end + 1)?;
                    Ok((Statement::VarBinding(idents, value), end))
                },
                Some(LexToken::Ident(name)) => {
                    match peek(tokens, pos + 2) {
                        Some(LexToken::OpAssign) => {},
                        _ => {
                            return Err(CompileError::Syntax);
                        },
                    }
                    let (value, end) = parse_expr(tokens, pos + 3)?;
                    let mut idents: Vec<String> = Vec::new();
                    idents.push(name.clone());
                    assert(names_view(idents@) =~= seq![name@]);
                    Ok((Statement::VarBinding(idents, value), end))
                },
                _ => Err(CompileError::Syntax),
            }
        },
        Some(LexToken::OpSemicolon) => Ok((Statement::Empty, pos + 1)),
        Some(LexToken::OpBraceClose) => Ok((Statement::Terminator, pos + 1)),
        _ => Err(CompileError::Syntax),
    }
}

/// Parses statements up to the brace that closes the module.
fn parse_stmts(tokens: &Vec<LexToken>, pos: usize) -> (r: Result<
    (Vec<Statement>, usize),
    CompileError,
>)
    ensures
        match stmts_at(tokens_view(tokens@), pos as int, seq![]) {
            Ok((stmts, end)) => r is Ok && stmts_view(r->Ok_0.0@) == stmts && r->Ok_0.1 == end
                && pos < end <= tokens@.len(),
            Err(e) => r is Err && r->Err_0 == e,
        },
{
    let ghost tv = tokens_view(tokens@);
    let n = tokens.len();
    let mut out: Vec<Statement> = Vec::new();
    let mut at = pos;
    assert(stmts_view(out@) =~= seq![]);
    loop
        invariant
            tv == tokens_view(tokens@),
            n == tokens@.len(),
            pos <= at,
            stmts_at(tv, pos as int, seq![]) == stmts_at(tv, at as int, stmts_view(out@)),
        decreases tokens@.len() - at,
    {
        let (stmt, end) = parse_stmt(tokens, at)?;
        match stmt {
            Statement::Terminator => {
                return Ok((out, end));
            },
            Statement::Empty => {},
            _ => {
                let ghost before = stmts_view(out@);
                let ghost value = stmt@;
                out.push(stmt);
                assert(stmts_view(out@) =~= before.push(value));
            },
        }
        at = end;
    }
}

/// Reads the symbol at `pos` and looks it up in the table.
fn take_symbol(tokens: &Vec<LexToken>, pos: usize, table: &SymbolTable) -> (r: Result<
    u32,
    CompileError,
>)
    requires
        table.wf(),
    ensures
        match symbol_at(tokens_view(tokens@), pos as int, table) {
            Ok(symbol) => r == Ok::<u32, CompileError>(symbol) && pos < tokens@.len(),
            Err(e) => r == Err::<u32, CompileError>(e),
        },
{
    match peek(tokens, pos) {
        Some(LexToken::Symbol(name)) => match symbol_index_from_identifier(table, name.as_str()) {
            Some(index) => Ok(index),
            None => Err(CompileError::Undefined),
        },
        _ => Err(CompileError::Syntax),
    }
}

/// Parses the arguments of a module.
fn parse_params(tokens: &Vec<LexToken>, pos: usize, table: &SymbolTable) -> (r: Result<
    (Vec<String>, Vec<Option<u32>>, usize),
    CompileError,
>)
    requires
        table.wf(),
    ensures
        match params_at(tokens_view(tokens@), pos as int, seq![], seq![], table) {
            Ok((names, types, end)) => r is Ok && names_view(r->Ok_0.0@) == names && r->Ok_0.1@
                == types && r->Ok_0.2 == end && pos < end <= tokens@.len(),
            Err(e) => r is Err && r->Err_0 == e,
        },
{
    let ghost tv = tokens_view(tokens@);
    let n = tokens.len();
    let mut names: Vec<String> = Vec::new();
    let mut types: Vec<Option<u32>> = Vec::new();
    let mut at = pos;
    assert(names_view(names@) =~= seq![]);
    if pos >= n {
        return Err(CompileError::Syntax);
    }
    loop
        invariant
            tv == tokens_view(tokens@),
            n == tokens@.len(),
            table.wf(),
            pos <= at < tokens@.len(),
            params_at(tv, pos as int, seq![], seq![], table) == params_at(
                tv,
                at as int,
                names_view(names@),
                types@,
                table,
            ),
        decreases tokens@.len() - at,
    {
        let name = match peek(tokens, at) {
            Some(LexToken::Ident(name)) => name.clone(),
            _ => {
                return Err(CompileError::Syntax);
            },
        };
        let (ty, next): (Option<u32>, usize) = match peek(tokens, at + 1) {
            Some(LexToken::OpColon) => {
                let symbol = take_symbol(tokens, at + 2, table)?;
                (Some(symbol), at + 3)
            },
            _ => (None, at + 1),
        };
        let ghost before = names_view(names@);
        names.push(name);
        types.push(ty);
        assert(names_view(names@) =~= before.push(name@));
        match peek(tokens, next) {
            Some(LexToken::OpComma) => {
                if next + 1 >= n {
                    assert(params_at(tv, next + 1, names_view(names@), types@, table) is Err);
                    return Err(CompileError::Syntax);
                }
                at = next + 1;
            },
            Some(LexToken::OpParenClose) => {
                return Ok((names, types, next + 1));
            },
            _ => {
                return Err(CompileError::Syntax);
            },
        }
    }
}

/// Parses symbols parted by commas and closed by a parenthesis.
fn parse_symbols(tokens: &Vec<LexToken>, pos: usize, table: &SymbolTable) -> (r: Result<
    (Vec<Option<u32>>, usize),
    CompileError,
>)
    requires
        table.wf(),
    ensures
        match symbols_at(tokens_view(tokens@), pos as int, seq![], table) {
            Ok((types, end)) => r is Ok && r->Ok_0.0@ == types && r->Ok_0.1 == end && pos < end
                <= tokens@.len(),
            Err(e) => r is Err && r->Err_0 == e,
        },
{
    let ghost tv = tokens_view(tokens@);
    let n = tokens.len();
    let mut out: Vec<Option<u32>> = Vec::new();
    let mut at = pos;
    if pos >= n {
        return Err(CompileError::Syntax);
    }
    loop
        invariant
            tv == tokens_view(tokens@),
            n == tokens@.len(),
            table.wf(),
            pos <= at < tokens@.len(),
            symbols_at(tv, pos as int, seq![], table) == symbols_at(tv, at as int, out@, table),
        decreases tokens@.len() - at,
    {
        let symbol = take_symbol(tokens, at, table)?;
        out.push(Some(symbol));
        match peek(tokens, at + 1) {
            Some(LexToken::OpComma) => {
                if at + 2 >= n {
                    assert(symbols_at(tv, at + 2, out@, table) is Err);
                    return Err(CompileError::Syntax);
                }
                at = at + 2;
            },
            Some(LexToken::OpParenClose) => {
                return Ok((out, at + 2));
            },
            _ => {
                return Err(CompileError::Syntax);
            },
        }
    }
}

/// Parses the declared returns of a module, if it declares any.
fn parse_returns(tokens: &Vec<LexToken>, pos: usize, table: &SymbolTable) -> (r: Result<
    (Option<Vec<Option<u32>>>, usize),
    CompileError,
>)
    requires
        table.wf(),
        pos <= tokens@.len(),
    ensures
        match returns_at(tokens_view(tokens@), pos as int, table) {
            Ok((types, end)) => r is Ok && returns_of(r->Ok_0.0) == types && r->Ok_0.1 == end
                && pos <= end <= tokens@.len(),
            Err(e) => r is Err && r->Err_0 == e,
        },
{
    let n = tokens.len();
    match peek(tokens, pos) {
        Some(LexToken::OpThinArrow) => {
            match peek(tokens, pos + 1) {
                Some(LexToken::OpParenOpen) => {
                    match peek(tokens, pos + 2) {
                        Some(LexToken::OpParenClose) => Ok((Some(Vec::new()), pos + 3)),
                        _ => {
                            let (types, end) = parse_symbols(tokens, pos + 2, table)?;
                            Ok((Some(types), end))
                        },
                    }
                },
                _ => {
                    let symbol = take_symbol(tokens, pos + 1, table)?;
                    let mut types: Vec<Option<u32>> = Vec::new();
                    types.push(Some(symbol));
                    assert(types@ =~= seq![Some(symbol)]);
                    Ok((Some(types), pos + 2))
                },
            }
        },
        _ => Ok((None, pos)),
    }
}

/// Parses the module whose keyword stands at `pos`.
fn parse_module(tokens: &Vec<LexToken>, pos: usize, table: &SymbolTable) -> (r: Result<
    (Module, usize),
    CompileError,
>)
    requires
        table.wf(),
        pos < tokens@.len(),
    ensures
        match module_at(tokens_view(tokens@), pos as int, table) {
            Ok((m, end)) => r is Ok && r->Ok_0.0@ == m && r->Ok_0.1 == end && pos < end
                <= tokens@.len(),
            Err(e) => r is Err && r->Err_0 == e,
        },
{
    let n = tokens.len();
    let name = match peek(tokens, pos + 1) {
        Some(LexToken::Ident(name)) => name.clone(),
        _ => {
            return Err(CompileError::Syntax);
        },
    };
    match peek(tokens, pos + 2) {
        Some(LexToken::OpParenOpen) => {},
        _ => {
            return Err(CompileError::Syntax);
        },
    }
    let (arg_names, arg_types, params_end): (Vec<String>, Vec<Option<u32>>, usize) = match peek(
        tokens,
        pos + 3,
    ) {
        Some(LexToken::OpParenClose) => {
            let names: Vec<String> = Vec::new();
            assert(names_view(names@) =~= seq![]);
            (names, Vec::new(), pos + 4)
        },
        _ => parse_params(tokens, pos + 3, table)?,
    };
    let (ret_types, returns_end) = parse_returns(tokens, params_end, table)?;
    match peek(tokens, returns_end) {
        Some(LexToken::OpBraceOpen) => {},
        _ => {
            return Err(CompileError::Syntax);
        },
    }
    let (stmts, end) = parse_stmts(tokens, returns_end + 1)?;
    Ok((Module { name, arg_names, stmts, arg_types, ret_types }, end))
}

/// Parses the constant whose keyword stands at `pos`.
fn parse_const(tokens: &Vec<LexToken>, pos: usize) -> (r: Result<(ParseItem, usize), CompileError>)
    requires
        pos < tokens@.len(),
    ensures
        match const_at(tokens_view(tokens@), pos as int) {
            Ok((item, end)) => r is Ok && r->Ok_0.0@ == item && r->Ok_0.1 == end && pos < end
                <= tokens@.len(),
            Err(e) => r is Err && r->Err_0 == e,
        },
{
    let n = tokens.len();
    let name = match peek(tokens, pos + 1) {
        Some(LexToken::Ident(name)) => name.clone(),
        _ => {
            return Err(CompileError::Syntax);
        },
    };
    match peek(tokens, pos + 2) {
        Some(LexToken::OpAssign) => {},
        _ => {
            return Err(CompileError::Syntax);
        },
    }
    let (negative, at): (bool, usize) = match peek(tokens, pos + 3) {
        Some(LexToken::OpSub) => (true, pos + 4),
        _ => (false, pos + 3),
    };
    let value = match peek(tokens, at) {
        Some(LexToken::Number(num)) => *num,
        _ => {
            return Err(CompileError::Syntax);
        },
    };
    match peek(tokens, at + 1) {
        Some(LexToken::OpSemicolon) => {},
        _ => {
            return Err(CompileError::Syntax);
        },
    }
    let signed = if negative {
        if value == i64::MIN {
            value
        } else {
            -value
        }
    } else {
        value
    };
    Ok((ParseItem::Constant(name, signed), at + 2))
}

/// Parses the tokens of a program into its items.
pub fn parse_tokens(tokens: &Vec<LexToken>, table: &SymbolTable) -> (r: Result<
    Vec<ParseItem>,
    CompileError,
>)
    requires
        table.wf(),
    ensures
        match items_at(tokens_view(tokens@), 0, seq![], table) {
            Ok(items) => r is Ok && items_view(r->Ok_0@) == items,
            Err(e) => r is Err && r->Err_0 == e,
        },
{
    let ghost tv = tokens_view(tokens@);
    let mut out: Vec<ParseItem> = Vec::new();
    let mut at: usize = 0;
    assert(items_view(out@) =~= seq![]);
    loop
        invariant
            tv == tokens_view(tokens@),
            table.wf(),
            items_at(tv, 0, seq![], table) == items_at(tv, at as int, items_view(out@), table),
        decreases tokens@.len() - at,
    {
        let ghost before = items_view(out@);
        match peek(tokens, at) {
            None => {
                return Ok(out);
            },
            Some(LexToken::KeyMod) => {
                let (m, end) = parse_module(tokens, at, table)?;
                let ghost value = m@;
                out.push(ParseItem::Module(m));
                assert(items_view(out@) =~= before.push(ParseItemV::Module(value)));
                at = end;
            },
            Some(LexToken::KeyConst) => {
                let (item, end) = parse_const(tokens, at)?;
                let ghost value = item@;
                out.push(item);
                assert(items_view(out@) =~= before.push(value));
                at = end;
            },
            _ => {
                return Err(CompileError::Syntax);
            },
        }
    }
}

/// Parses a program text into its items: constants and modules. Symbols
/// are looked up in the table.
pub fn parse(source: &str, table: &SymbolTable) -> (r: Result<Vec<ParseItem>, CompileError>)
    requires
        table.wf(),
    ensures
        match parsed(source@, table) {
            Ok(items) => r is Ok && items_view(r->Ok_0@) == items,
            Err(e) => r is Err && r->Err_0 == e,
        },
{
    let tokens = crate::lexer::tokenize(source)?;
    parse_tokens(&tokens, table)
}

} // verus!
