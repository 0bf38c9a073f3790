use vstd::prelude::*;

verus! {

/// The output of name resolution: the rewritten program, the symbol table it
/// indexes into, and whether any reference error was found.
#[derive(Debug, PartialEq)]
pub struct ResolvedAst {
    pub ast: Vec<Statement>,
    pub symtable: Symtable,
    pub error_mode: bool,
}

/// A resolved and type-checked program, ready for compilation.
#[derive(Debug, PartialEq)]
pub struct AnalyzedAst {
    pub symtable: Symtable,
    pub ast: Vec<Statement>,
}

#[derive(Debug, Clone, PartialEq)]
pub struct Function {
    pub return_type: Option<Type>,
    pub param_list: Vec<ParamType>,
    pub identifier: String,
}

#[derive(Debug, Clone, PartialEq)]
pub struct LocalVariable {
    pub vartype: Option<Type>,
    pub identifier: String,
    pub index: usize,
}

#[derive(Debug, PartialEq)]
pub struct Symtable {
    pub variable_table: Vec<LocalVariable>,
    pub function_table: Vec<Function>,
}

#[derive(Debug, PartialEq)]
pub enum Statement {
    Print { value: Expression },
    VariableDeclaration { value: Expression, identifier: String, variable_type: Option<String> },
    VariableAssignment { value: Expression, identifier: usize },
    FunctionDeclaration {
        identifier: String,
        param_list: Vec<Parameter>,
        return_type: Option<String>,
        block: Box<Vec<Statement>>,
    },
    FunctionDefinition { identifier: usize, block: Box<Vec<Statement>> },
    ReturnStatement { return_value: Option<Expression>, function: String },
    ResolvedReturn { return_value: Option<Expression>, function: usize },
    Call { expression: Expression },
}

#[derive(Debug, Clone, PartialEq)]
pub struct Parameter {
    pub identifier: String,
    pub param_type: String,
}

#[derive(Debug, Clone, PartialEq)]
pub struct ParamType {
    pub identifier: String,
    pub param_type: Type,
}

#[derive(Debug, PartialEq)]
pub enum Expression {
    StringValue { value: String },
    Number { value: u32 },
    Boolean { value: bool },
    Variable { identifier: String },
    LocalVar { id: usize, depth: usize },
    BinaryOperation { lhs: Box<Expression>, rhs: Box<Expression>, op_type: OperationType },
    Cast { operand: Box<Expression>, output_type: String },
    ResolvedCast { operand: Box<Expression>, output_type: Type },
    AnalyzedCast { operand: Box<Expression>, output_type: Type, input_type: Type },
    FunctionCall { identifier: String, argument_list: Box<Vec<Expression>> },
    ResolvedFunctionCall { id: usize, argument_list: Box<Vec<Expression>> },
}

impl Expression {
    /// Builds a binary operation node.
    pub fn binary(lhs: Expression, rhs: Expression, op_type: OperationType) -> (e: Self)
        ensures
            e == (Expression::BinaryOperation { lhs: Box::new(lhs), rhs: Box::new(rhs), op_type }),
    {
        Expression::BinaryOperation { lhs: Box::new(lhs), rhs: Box::new(rhs), op_type }
    }
}

#[derive(Debug, Clone, Copy, PartialEq)]
pub enum Type {
    StringType,
    Integer,
    Boolean,
    Null(Nil),
}

#[derive(Debug, Clone, Copy, PartialEq, Eq, Structural)]
pub enum OperationType {
    Add,
    Sub,
    Mul,
    Div,
    Pow,
    Cat,
}

impl Type {
    /// The type of a call to a function without a return type.
    pub fn null() -> (t: Self)
        ensures
            t is Null,
    {
        Type::Null(Nil {})
    }

    pub fn is_null(&self) -> (b: bool)
        ensures
            b == (*self is Null),
    {
        match self {
            Type::Null(_) => true,
            _ => false,
        }
    }
}

/// Whether `==` between two types, as the language defines it, holds: the
/// same variant, and never for the null type (a null value equals nothing,
/// not even another null).
pub open spec fn same_type(a: Type, b: Type) -> bool {
    match (a, b) {
        (Type::StringType, Type::StringType) => true,
        (Type::Integer, Type::Integer) => true,
        (Type::Boolean, Type::Boolean) => true,
        _ => false,
    }
}

/// Executable `==` on types, following `same_type`.
pub fn type_eq(a: &Type, b: &Type) -> (r: bool)
    ensures
        r == same_type(*a, *b),
{
    match (a, b) {
        (Type::StringType, Type::StringType) => true,
        (Type::Integer, Type::Integer) => true,
        (Type::Boolean, Type::Boolean) => true,
        _ => false,
    }
}

/// The value carried by the null type; no two such values compare equal.
#[derive(Debug, Clone, Copy)]
pub struct Nil {}

impl PartialEq for Nil {
    fn eq(&self, _other: &Self) -> (r: bool) {
        false
    }
}

impl vstd::std_specs::cmp::PartialEqSpecImpl for Nil {
    open spec fn obeys_eq_spec() -> bool {
        true
    }

    open spec fn eq_spec(&self, other: &Self) -> bool {
        false
    }
}

// ---------------------------------------------------------------------------
// Mathematical models of the syntax tree: strings become `Seq<char>` and
// vectors become `Seq`, so that two trees are equal exactly when they have the
// same shape and contents.
// ---------------------------------------------------------------------------

pub enum SpecExpr {
    StringValue { value: Seq<char> },
    Number { value: u32 },
    Boolean { value: bool },
    Variable { identifier: Seq<char> },
    LocalVar { id: usize, depth: usize },
    BinaryOperation { lhs: Box<SpecExpr>, rhs: Box<SpecExpr>, op_type: OperationType },
    Cast { operand: Box<SpecExpr>, output_type: Seq<char> },
    ResolvedCast { operand: Box<SpecExpr>, output_type: Type },
    AnalyzedCast { operand: Box<SpecExpr>, output_type: Type, input_type: Type },
    FunctionCall { identifier: Seq<char>, argument_list: Seq<SpecExpr> },
    ResolvedFunctionCall { id: usize, argument_list: Seq<SpecExpr> },
}

pub enum SpecStmt {
    Print { value: SpecExpr },
    VariableDeclaration { value: SpecExpr, identifier: Seq<char>, variable_type: Option<Seq<char>> },
    VariableAssignment { value: SpecExpr, identifier: usize },
    FunctionDeclaration {
        identifier: Seq<char>,
        param_list: Seq<(Seq<char>, Seq<char>)>,
        return_type: Option<Seq<char>>,
        block: Seq<SpecStmt>,
    },
    FunctionDefinition { identifier: usize, block: Seq<SpecStmt> },
    ReturnStatement { return_value: Option<SpecExpr>, function: Seq<char> },
    ResolvedReturn { return_value: Option<SpecExpr>, function: usize },
    Call { expression: SpecExpr },
}

pub open spec fn opt_str_view(s: Option<String>) -> Option<Seq<char>> {
    match s {
        Some(x) => Some(x@),
        None => None,
    }
}

pub open spec fn expr_view(e: Expression) -> SpecExpr
    decreases e,
{
    match e {
        Expression::StringValue { value } => SpecExpr::StringValue { value: value@ },
        Expression::Number { value } => SpecExpr::Number { value },
        Expression::Boolean { value } => SpecExpr::Boolean { value },
        Expression::Variable { identifier } => SpecExpr::Variable { identifier: identifier@ },
        Expression::LocalVar { id, depth } => SpecExpr::LocalVar { id, depth },
        Expression::BinaryOperation { lhs, rhs, op_type } => SpecExpr::BinaryOperation {
            lhs: Box::new(expr_view(*lhs)),
            rhs: Box::new(expr_view(*rhs)),
            op_type,
        },
        Expression::Cast { operand, output_type } => SpecExpr::Cast {
            operand: Box::new(expr_view(*operand)),
            output_type: output_type@,
        },
        Expression::ResolvedCast { operand, output_type } => SpecExpr::ResolvedCast {
            operand: Box::new(expr_view(*operand)),
            output_type,
        },
        Expression::AnalyzedCast { operand, output_type, input_type } => SpecExpr::AnalyzedCast {
            operand: Box::new(expr_view(*operand)),
            output_type,
            input_type,
        },
        Expression::FunctionCall { identifier, argument_list } => SpecExpr::FunctionCall {
            identifier: identifier@,
            argument_list: exprs_view((*argument_list)@),
        },
        Expression::ResolvedFunctionCall { id, argument_list } => SpecExpr::ResolvedFunctionCall {
            id,
            argument_list: exprs_view((*argument_list)@),
        },
    }
}

pub open spec fn exprs_view(s: Seq<Expression>) -> Seq<SpecExpr>
    decreases s,
{
    if s.len() == 0 {
        Seq::empty()
    } else {
        exprs_view(s.subrange(0, s.len() - 1)).push(expr_view(s[s.len() - 1]))
    }
}

pub open spec fn opt_expr_view(e: Option<Expression>) -> Option<SpecExpr> {
    match e {
        Some(x) => Some(expr_view(x)),
        None => None,
    }
}

pub open spec fn param_view(p: Parameter) -> (Seq<char>, Seq<char>) {
    (p.identifier@, p.param_type@)
}

pub open spec fn params_view(s: Seq<Parameter>) -> Seq<(Seq<char>, Seq<char>)> {
    s.map_values(|p: Parameter| param_view(p))
}

pub open spec fn stmt_view(s: Statement) -> SpecStmt
    decreases s,
{
    match s {
        Statement::Print { value } => SpecStmt::Print { value: expr_view(value) },
        Statement::VariableDeclaration { value, identifier, variable_type } =>
            SpecStmt::VariableDeclaration {
                value: expr_view(value),
                identifier: identifier@,
                variable_type: opt_str_view(variable_type),
            },
        Statement::VariableAssignment { value, identifier } =>
            SpecStmt::VariableAssignment { value: expr_view(value), identifier },
        Statement::FunctionDeclaration { identifier, param_list, return_type, block } =>
            SpecStmt::FunctionDeclaration {
                identifier: identifier@,
                param_list: params_view(param_list@),
                return_type: opt_str_view(return_type),
                block: stmts_view((*block)@),
            },
        Statement::FunctionDefinition { identifier, block } =>
            SpecStmt::FunctionDefinition { identifier, block: stmts_view((*block)@) },
        Statement::ReturnStatement { return_value, function } =>
            SpecStmt::ReturnStatement { return_value: opt_expr_view(return_value), function: function@ },
        Statement::ResolvedReturn { return_value, function } =>
            SpecStmt::ResolvedReturn { return_value: opt_expr_view(return_value), function },
        Statement::Call { expression } => SpecStmt::Call { expression: expr_view(expression) },
    }
}

pub open spec fn stmts_view(s: Seq<Statement>) -> Seq<SpecStmt>
    decreases s,
{
    if s.len() == 0 {
        Seq::empty()
    } else {
        stmts_view(s.subrange(0, s.len() - 1)).push(stmt_view(s[s.len() - 1]))
    }
}

/// The model of a list of expressions is the list of their models.
pub proof fn lemma_exprs_view(s: Seq<Expression>)
    ensures
        exprs_view(s).len() == s.len(),
        forall|i: int| 0 <= i < s.len() ==> #[trigger] exprs_view(s)[i] == expr_view(s[i]),
    decreases s.len(),
{
    if s.len() > 0 {
        lemma_exprs_view(s.subrange(0, s.len() - 1));
    }
}

/// The model of a list of statements is the list of their models.
pub proof fn lemma_stmts_view(s: Seq<Statement>)
    ensures
        stmts_view(s).len() == s.len(),
        forall|i: int| 0 <= i < s.len() ==> #[trigger] stmts_view(s)[i] == stmt_view(s[i]),
    decreases s.len(),
{
    if s.len() > 0 {
        lemma_stmts_view(s.subrange(0, s.len() - 1));
    }
}

impl View for Expression {
    type V = SpecExpr;

    open spec fn view(&self) -> SpecExpr {
        expr_view(*self)
    }
}

impl View for Statement {
    type V = SpecStmt;

    open spec fn view(&self) -> SpecStmt {
        stmt_view(*self)
    }
}

// ---------------------------------------------------------------------------
// Models of the symbol table.
// ---------------------------------------------------------------------------

pub struct SpecLocal {
    pub vartype: Option<Type>,
    pub identifier: Seq<char>,
    pub index: usize,
}

pub struct SpecFunction {
    pub return_type: Option<Type>,
    pub param_list: Seq<(Seq<char>, Type)>,
    pub identifier: Seq<char>,
}

pub struct SpecSymtable {
    pub variables: Seq<SpecLocal>,
    pub functions: Seq<SpecFunction>,
}

impl View for ParamType {
    type V = (Seq<char>, Type);

    open spec fn view(&self) -> (Seq<char>, Type) {
        (self.identifier@, self.param_type)
    }
}

pub open spec fn param_types_view(s: Seq<ParamType>) -> Seq<(Seq<char>, Type)> {
    s.map_values(|p: ParamType| p@)
}

impl View for LocalVariable {
    type V = SpecLocal;

    open spec fn view(&self) -> SpecLocal {
        SpecLocal { vartype: self.vartype, identifier: self.identifier@, index: self.index }
    }
}

impl View for Function {
    type V = SpecFunction;

    open spec fn view(&self) -> SpecFunction {
        SpecFunction {
            return_type: self.return_type,
            param_list: param_types_view(self.param_list@),
            identifier: self.identifier@,
        }
    }
}

pub open spec fn variables_view(s: Seq<LocalVariable>) -> Seq<SpecLocal> {
    s.map_values(|v: LocalVariable| v@)
}

pub open spec fn functions_view(s: Seq<Function>) -> Seq<SpecFunction> {
    s.map_values(|f: Function| f@)
}

impl View for Symtable {
    type V = SpecSymtable;

    open spec fn view(&self) -> SpecSymtable {
        SpecSymtable {
            variables: variables_view(self.variable_table@),
            functions: functions_view(self.function_table@),
        }
    }
}

// ---------------------------------------------------------------------------
// Copies. The tree types hold boxed lists of themselves, so their copies are
// written out by hand and shown to keep the model.
// ---------------------------------------------------------------------------

fn copy_expression(e: &Expression) -> (r: Expression)
    ensures
        r@ == e@,
    decreases e,
{
    match e {
        Expression::StringValue { value } => Expression::StringValue { value: value.clone() },
        Expression::Number { value } => Expression::Number { value: *value },
        Expression::Boolean { value } => Expression::Boolean { value: *value },
        Expression::Variable { identifier } => Expression::Variable { identifier: identifier.clone() },
        Expression::LocalVar { id, depth } => Expression::LocalVar { id: *id, depth: *depth },
        Expression::BinaryOperation { lhs, rhs, op_type } => Expression::BinaryOperation {
            lhs: Box::new(copy_expression(lhs)),
            rhs: Box::new(copy_expression(rhs)),
            op_type: *op_type,
        },
        Expression::Cast { operand, output_type } => Expression::Cast {
            operand: Box::new(copy_expression(operand)),
            output_type: output_type.clone(),
        },
        Expression::ResolvedCast { operand, output_type } => Expression::ResolvedCast {
            operand: Box::new(copy_expression(operand)),
            output_type: *output_type,
        },
        Expression::AnalyzedCast { operand, output_type, input_type } => Expression::AnalyzedCast {
            operand: Box::new(copy_expression(operand)),
            output_type: *output_type,
            input_type: *input_type,
        },
        Expression::FunctionCall { identifier, argument_list } => Expression::FunctionCall {
            identifier: identifier.clone(),
            argument_list: Box::new(copy_expressions(argument_list)),
        },
        Expression::ResolvedFunctionCall { id, argument_list } => Expression::ResolvedFunctionCall {
            id: *id,
            argument_list: Box::new(copy_expressions(argument_list)),
        },
    }
}

fn copy_expressions(v: &Vec<Expression>) -> (r: Vec<Expression>)
    ensures
        exprs_view(r@) == exprs_view(v@),
    decreases v,
{
    let mut out: Vec<Expression> = Vec::new();
    let mut i: usize = 0;
    while i < v.len()
        invariant
            i <= v.len(),
            out@.len() == i,
            forall|j: int| 0 <= j < i ==> #[trigger] out@[j]@ == v@[j]@,
        decreases v.len() - i,
    {
        proof {
            assert(decreases_to!(v => v@));
            assert(decreases_to!(v@ => v@[i as int]));
        }
        let c = copy_expression(&v[i]);
        out.push(c);
        i = i + 1;
    }
    proof {
        lemma_exprs_view(out@);
        lemma_exprs_view(v@);
        assert forall|j: int| 0 <= j < v@.len() implies exprs_view(out@)[j] == exprs_view(v@)[j] by {
            assert(out@[j]@ == v@[j]@);
        }
        assert(exprs_view(out@) =~= exprs_view(v@));
    }
    out
}

fn copy_statement(s: &Statement) -> (r: Statement)
    ensures
        r@ == s@,
    decreases s,
{
    match s {
        Statement::Print { value } => Statement::Print { value: copy_expression(value) },
        Statement::VariableDeclaration { value, identifier, variable_type } => Statement::VariableDeclaration {
            value: copy_expression(value),
            identifier: identifier.clone(),
            variable_type: match variable_type {
                Some(t) => Some(t.clone()),
                None => None,
            },
        },
        Statement::VariableAssignment { value, identifier } => Statement::VariableAssignment {
            value: copy_expression(value),
            identifier: *identifier,
        },
        Statement::FunctionDeclaration { identifier, param_list, return_type, block } => {
            let mut params: Vec<Parameter> = Vec::new();
            let mut i: usize = 0;
            while i < param_list.len()
                invariant
                    i <= param_list.len(),
                    params@.len() == i,
                    forall|j: int| 0 <= j < i ==> param_view(#[trigger] params@[j]) == param_view(param_list@[j]),
                decreases param_list.len() - i,
            {
                params.push(Parameter {
                    identifier: param_list[i].identifier.clone(),
                    param_type: param_list[i].param_type.clone(),
                });
                i = i + 1;
            }
            proof {
                assert(params_view(params@) =~= params_view(param_list@));
            }
            Statement::FunctionDeclaration {
                identifier: identifier.clone(),
                param_list: params,
                return_type: match return_type {
                    Some(t) => Some(t.clone()),
                    None => None,
                },
                block: Box::new(copy_statements(block)),
            }
        },
        Statement::FunctionDefinition { identifier, block } => Statement::FunctionDefinition {
            identifier: *identifier,
            block: Box::new(copy_statements(block)),
        },
        Statement::ReturnStatement { return_value, function } => Statement::ReturnStatement {
            return_value: match return_value {
                Some(x) => Some(copy_expression(x)),
                None => None,
            },
            function: function.clone(),
        },
        Statement::ResolvedReturn { return_value, function } => Statement::ResolvedReturn {
            return_value: match return_value {
                Some(x) => Some(copy_expression(x)),
                None => None,
            },
            function: *function,
        },
        Statement::Call { expression } => Statement::Call { expression: copy_expression(expression) },
    }
}

fn copy_statements(v: &Vec<Statement>) -> (r: Vec<Statement>)
    ensures
        stmts_view(r@) == stmts_view(v@),
    decreases v,
{
    let mut out: Vec<Statement> = Vec::new();
    let mut i: usize = 0;
    while i < v.len()
        invariant
            i <= v.len(),
            out@.len() == i,
            forall|j: int| 0 <= j < i ==> #[trigger] out@[j]@ == v@[j]@,
        decreases v.len() - i,
    {
        proof {
            assert(decreases_to!(v => v@));
            assert(decreases_to!(v@ => v@[i as int]));
        }
        let c = copy_statement(&v[i]);
        out.push(c);
        i = i + 1;
    }
    proof {
        lemma_stmts_view(out@);
        lemma_stmts_view(v@);
        assert forall|j: int| 0 <= j < v@.len() implies stmts_view(out@)[j] == stmts_view(v@)[j] by {
            assert(out@[j]@ == v@[j]@);
        }
        assert(stmts_view(out@) =~= stmts_view(v@));
    }
    out
}

impl Clone for Expression {
    fn clone(&self) -> (r: Self)
        ensures
            r@ == self@,
    {
        copy_expression(self)
    }
}

impl Clone for Statement {
    fn clone(&self) -> (r: Self)
        ensures
            r@ == self@,
    {
        copy_statement(self)
    }
}

impl Clone for Symtable {
    fn clone(&self) -> (r: Self)
        ensures
            r@ == self@,
    {
        let mut variable_table: Vec<LocalVariable> = Vec::new();
        let mut i: usize = 0;
        while i < self.variable_table.len()
            invariant
                i <= self.variable_table.len(),
                variable_table@.len() == i,
                forall|j: int| 0 <= j < i ==> #[trigger] variable_table@[j]@ == self.variable_table@[j]@,
            decreases self.variable_table.len() - i,
        {
            let v = &self.variable_table[i];
            variable_table.push(LocalVariable { vartype: v.vartype, identifier: v.identifier.clone(), index: v.index });
            i = i + 1;
        }
        let mut function_table: Vec<Function> = Vec::new();
        let mut k: usize = 0;
        while k < self.function_table.len()
            invariant
                k <= self.function_table.len(),
                function_table@.len() == k,
                forall|j: int| 0 <= j < k ==> #[trigger] function_table@[j]@ == self.function_table@[j]@,
            decreases self.function_table.len() - k,
        {
            let f = &self.function_table[k];
            let mut params: Vec<ParamType> = Vec::new();
            let mut m: usize = 0;
            while m < f.param_list.len()
                invariant
                    m <= f.param_list.len(),
                    params@.len() == m,
                    forall|j: int| 0 <= j < m ==> #[trigger] params@[j]@ == f.param_list@[j]@,
                decreases f.param_list.len() - m,
            {
                params.push(ParamType { identifier: f.param_list[m].identifier.clone(), param_type: f.param_list[m].param_type });
                m = m + 1;
            }
            proof {
                assert(param_types_view(params@) =~= param_types_view(f.param_list@));
            }
            function_table.push(Function { return_type: f.return_type, param_list: params, identifier: f.identifier.clone() });
            k = k + 1;
        }
        proof {
            assert(variables_view(variable_table@) =~= variables_view(self.variable_table@));
            assert(functions_view(function_table@) =~= functions_view(self.function_table@));
        }
        Symtable { variable_table, function_table }
    }
}

impl Clone for ResolvedAst {
    fn clone(&self) -> (r: Self)
        ensures
            stmts_view(r.ast@) == stmts_view(self.ast@),
            r.symtable@ == self.symtable@,
            r.error_mode == self.error_mode,
    {
        ResolvedAst { ast: copy_statements(&self.ast), symtable: self.symtable.clone(), error_mode: self.error_mode }
    }
}

impl Clone for AnalyzedAst {
    fn clone(&self) -> (r: Self)
        ensures
            stmts_view(r.ast@) == stmts_view(self.ast@),
            r.symtable@ == self.symtable@,
    {
        AnalyzedAst { symtable: self.symtable.clone(), ast: copy_statements(&self.ast) }
    }
}

} // verus!

