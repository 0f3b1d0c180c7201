use vstd::prelude::*;

use crate::lexer::{ConditionKind, Inline, Symbol, Token, TokenLine, TokenV, tokens_view};
use crate::string_builder::{collapse, push, push_nat};
use crate::token_expect::{
    req_ok, IndexReq, TokenReq, first_failing, lemma_pattern_last, lemma_pattern_prefix, match_exact,
    match_exact_cond, pattern_failure, pattern_matches,
};
use crate::utility::{LinedError, SuccessStep};

verus! {

#[derive(Debug, PartialEq, Eq, Structural, Clone, Copy)]
pub struct FunctionId(pub usize);

#[derive(Debug, PartialEq, Eq, Structural, Clone, Copy)]
pub enum VariableType {
    Global,
    Local(FunctionId),
}

#[derive(Debug, PartialEq, Eq, Structural, Clone, Copy)]
pub struct VariableId {
    pub raw: usize,
    pub kind: VariableType,
}

impl VariableId {
    pub fn new(raw: usize, kind: VariableType) -> (r: VariableId)
        ensures
            r == (VariableId { raw, kind }),
    {
        VariableId { raw, kind }
    }
}

#[derive(Debug)]
pub struct VariableDeclaration {
    pub name: String,
    pub default_value: i32,
}

impl VariableDeclaration {
    pub fn new(name: String, default_value: i32) -> (r: VariableDeclaration)
        ensures
            r.name@ == name@,
            r.default_value == default_value,
    {
        VariableDeclaration { name, default_value }
    }
}

#[derive(Debug, Clone)]
pub struct Variable {
    pub name: String,
    pub default_value: i32,
    pub id: VariableId,
    pub read_only: bool,
}

#[derive(Debug, Clone)]
pub enum ArgumentCallArg {
    Literal(i32),
    Reference(VariableId),
    Deref(VariableId),
    GetAddress(VariableId),
    Flag(String, FunctionId),
}

impl ArgumentCallArg {
    /// A copy of the argument.
    pub fn duplicate(&self) -> (r: ArgumentCallArg)
        ensures
            r == *self,
    {
        match self {
            ArgumentCallArg::Literal(n) => ArgumentCallArg::Literal(*n),
            ArgumentCallArg::Reference(v) => ArgumentCallArg::Reference(*v),
            ArgumentCallArg::Deref(v) => ArgumentCallArg::Deref(*v),
            ArgumentCallArg::GetAddress(v) => ArgumentCallArg::GetAddress(*v),
            ArgumentCallArg::Flag(l, f) => ArgumentCallArg::Flag(l.clone(), *f),
        }
    }
}

#[derive(Debug, Clone)]
pub struct FunctionCall {
    pub fnc_id: FunctionId,
    pub arguments: Vec<ArgumentCallArg>,
    pub assignment: Option<VariableId>,
    pub from: FunctionId,
}

impl FunctionCall {
    pub fn new(
        fnc_id: FunctionId,
        arguments: Vec<ArgumentCallArg>,
        assignment: Option<VariableId>,
        from: FunctionId,
    ) -> (r: FunctionCall)
        ensures
            r == (FunctionCall { fnc_id, arguments, assignment, from }),
    {
        FunctionCall { fnc_id, arguments, assignment, from }
    }
}

pub type Block = Vec<Statement>;

#[derive(Debug)]
pub struct If {
    pub a: ArgumentCallArg,
    pub b: ArgumentCallArg,
    pub if_true: Block,
    pub if_false: Option<Block>,
    pub cond: ConditionKind,
}

#[derive(Debug, Clone)]
pub struct Flag {
    pub label: String,
}

#[derive(Debug, Clone)]
pub struct Ret {
    pub ret_val: Option<ArgumentCallArg>,
    pub fnc: FunctionId,
}

#[derive(Debug, Clone)]
pub struct Assignment {
    pub left: VariableId,
    pub right: ArgumentCallArg,
}

#[derive(Debug)]
pub enum Statement {
    Inline(String),
    If(If),
    FunctionCall(FunctionCall),
    Flag(Flag),
    Ret(Ret),
    Assignment(Assignment),
}

#[derive(Debug)]
pub struct FunctionDeclaration {
    pub name: String,
    pub arguments: Vec<String>,
    pub locals: Vec<VariableDeclaration>,
    pub is_stack: bool,
}

#[derive(Debug)]
pub struct Function {
    pub id: FunctionId,
    pub name: String,
    /// `None` for a function declared without code.
    pub content: Option<Block>,
    /// The arguments first, then the other locals.
    pub locals: Vec<Variable>,
    pub args: usize,
    pub is_stack: bool,
}

/// The language features that a program uses, one bit each.
#[derive(Debug, Clone, Copy, PartialEq, Eq, Structural)]
pub struct FeatureFlags {
    pub bits: u32,
}

pub const STACK_FUNCTIONS: u32 = 1;

impl FeatureFlags {
    pub fn empty() -> (r: FeatureFlags)
        ensures
            r.bits == 0,
    {
        FeatureFlags { bits: 0 }
    }

    pub fn contains(&self, flag: u32) -> (r: bool)
        ensures
            r == (self.bits & flag == flag),
    {
        self.bits & flag == flag
    }

    pub fn insert(&mut self, flag: u32)
        ensures
            final(self).bits == old(self).bits | flag,
    {
        self.bits = self.bits | flag;
    }
}

#[derive(Debug)]
pub struct ProgramTree {
    /// Functions in the order of their declaration; `functions[i].id == FunctionId(i)`.
    pub functions: Vec<Function>,
    /// `_temp`, `return` and `return_saver`, then the program's globals.
    pub globals: Vec<Variable>,
    /// Every integer that the program needs as a constant cell, in increasing order.
    pub constants_used: Vec<i32>,
    pub features: FeatureFlags,
}

// ---------------------------------------------------------------------------
// The shape of a tree: what name resolution looks at.
pub struct FnShape {
    pub name: Seq<char>,
    pub args: nat,
    pub n_locals: nat,
    pub is_stack: bool,
}

pub struct Shape {
    pub n_globals: nat,
    pub fns: Seq<FnShape>,
    pub consts: Set<i32>,
}

pub open spec fn fn_shape(f: Function) -> FnShape {
    FnShape {
        name: f.name@,
        args: f.args as nat,
        n_locals: f.locals@.len(),
        is_stack: f.is_stack,
    }
}

pub open spec fn main_name() -> Seq<char> {
    seq!['m', 'a', 'i', 'n']
}

pub open spec fn push_name() -> Seq<char> {
    seq!['p', 'u', 's', 'h']
}

pub open spec fn pop_name() -> Seq<char> {
    seq!['p', 'o', 'p']
}

pub open spec fn stack_return_name() -> Seq<char> {
    seq!['s', 't', 'a', 'c', 'k', '_', 'r', 'e', 't', 'u', 'r', 'n']
}

pub open spec fn temp_name() -> Seq<char> {
    seq!['_', 't', 'e', 'm', 'p']
}

pub open spec fn return_name() -> Seq<char> {
    seq!['r', 'e', 't', 'u', 'r', 'n']
}

pub open spec fn return_saver_name() -> Seq<char> {
    seq!['r', 'e', 't', 'u', 'r', 'n', '_', 's', 'a', 'v', 'e', 'r']
}

/// A variable id that names a global, or a local of function `f`.
pub open spec fn var_ok(sh: Shape, f: int, v: VariableId) -> bool {
    match v.kind {
        VariableType::Global => v.raw < sh.n_globals,
        VariableType::Local(g) => g.0 == f && 0 <= f < sh.fns.len() && v.raw
            < sh.fns[f].n_locals,
    }
}

pub open spec fn arg_ok(sh: Shape, f: int, a: ArgumentCallArg) -> bool {
    match a {
        ArgumentCallArg::Literal(n) => sh.consts.contains(n),
        ArgumentCallArg::Reference(v) => var_ok(sh, f, v),
        ArgumentCallArg::Deref(v) => var_ok(sh, f, v),
        ArgumentCallArg::GetAddress(v) => var_ok(sh, f, v),
        ArgumentCallArg::Flag(_, g) => g.0 == f,
    }
}

pub open spec fn args_ok(sh: Shape, f: int, args: Seq<ArgumentCallArg>) -> bool {
    forall|k: int| 0 <= k < args.len() ==> arg_ok(sh, f, #[trigger] args[k])
}

/// A call from function `f`: its callee exists, gets as many arguments as it
/// declares, and is a stack function only where `f` is one or is `main`.
pub open spec fn call_ok(sh: Shape, f: int, c: FunctionCall) -> bool {
    &&& 0 <= f < sh.fns.len()
    &&& c.fnc_id.0 < sh.fns.len()
    &&& c.from.0 == f
    &&& c.arguments@.len() == sh.fns[c.fnc_id.0 as int].args
    &&& args_ok(sh, f, c.arguments@)
    &&& (c.assignment matches Some(v) ==> var_ok(sh, f, v))
    &&& (sh.fns[c.fnc_id.0 as int].is_stack ==> sh.fns[f].is_stack || sh.fns[f].name
        == main_name())
}

/// Every name in the statement resolves, within function `f`.
pub open spec fn stmt_ok(sh: Shape, f: int, s: Statement) -> bool
    decreases s,
{
    match s {
        Statement::Inline(_) => true,
        Statement::Flag(_) => true,
        Statement::Assignment(a) => var_ok(sh, f, a.left) && arg_ok(sh, f, a.right),
        Statement::Ret(r) => r.fnc.0 == f && (r.ret_val matches Some(v) ==> arg_ok(sh, f, v)),
        Statement::FunctionCall(c) => call_ok(sh, f, c),
        Statement::If(i) => {
            &&& arg_ok(sh, f, i.a)
            &&& arg_ok(sh, f, i.b)
            &&& block_ok(sh, f, i.if_true@)
            &&& (i.if_false matches Some(b) ==> block_ok(sh, f, b@))
        },
    }
}

pub open spec fn block_ok(sh: Shape, f: int, b: Seq<Statement>) -> bool
    decreases b,
{
    forall|k: int| 0 <= k < b.len() ==> stmt_ok(sh, f, #[trigger] b[k])
}

} // verus!

verus! {

/// The position of the first variable of `vs` from `i` on with this name.
pub open spec fn first_named(vs: Seq<Variable>, name: Seq<char>, i: int) -> Option<int>
    decreases vs.len() - i,
{
    if i < 0 || i >= vs.len() {
        None
    } else if vs[i].name@ == name {
        Some(i)
    } else {
        first_named(vs, name, i + 1)
    }
}

/// From `i0` on, no name before `i` matches: the first match is at `i`, or
/// there is none where `i` is the end.
pub proof fn lemma_first_named(vs: Seq<Variable>, name: Seq<char>, i0: int, i: int)
    requires
        0 <= i0 <= i <= vs.len(),
        forall|k: int| i0 <= k < i ==> vs[k].name@ != name,
    ensures
        i < vs.len() && vs[i].name@ == name ==> first_named(vs, name, i0) == Some(i),
        i == vs.len() ==> first_named(vs, name, i0) is None,
    decreases i - i0,
{
    if i0 < i {
        lemma_first_named(vs, name, i0 + 1, i);
    }
}

pub open spec fn sorted_unique(v: Seq<i32>) -> bool {
    forall|i: int, j: int| 0 <= i < j < v.len() ==> v[i] < v[j]
}

/// The variable that an id names, where it names one.
pub open spec fn var_of(globals: Seq<Variable>, fns: Seq<Function>, v: VariableId) -> Variable {
    match v.kind {
        VariableType::Global => globals[v.raw as int],
        VariableType::Local(f) => fns[f.0 as int].locals@[v.raw as int],
    }
}

pub open spec fn var_exists(globals: Seq<Variable>, fns: Seq<Function>, v: VariableId) -> bool {
    match v.kind {
        VariableType::Global => v.raw < globals.len(),
        VariableType::Local(f) => f.0 < fns.len() && v.raw < fns[f.0 as int].locals@.len(),
    }
}

/// Ids are positions: `globals[i]` has raw id `i`, `functions[f]` has id `f`,
/// its local `j` has raw id `j`, and its first `args` locals are read-only.
pub open spec fn function_ids_ok(fns: Seq<Function>, f: int) -> bool {
    let fun = fns[f];
    &&& fun.id.0 == f
    &&& fun.args <= fun.locals@.len()
    &&& forall|j: int|
        0 <= j < fun.locals@.len() ==> (#[trigger] fun.locals@[j]).id.raw == j
            && fun.locals@[j].id.kind == VariableType::Local(fun.id) && fun.locals@[j].read_only
            == (j < fun.args)
}

pub open spec fn globals_ids_ok(globals: Seq<Variable>) -> bool {
    forall|i: int|
        0 <= i < globals.len() ==> (#[trigger] globals[i]).id.raw == i && globals[i].id.kind
            == VariableType::Global && !globals[i].read_only
}

impl ProgramTree {
    pub open spec fn shape(&self) -> Shape {
        Shape {
            n_globals: self.globals@.len(),
            fns: self.functions@.map_values(|f: Function| fn_shape(f)),
            consts: self.constants_used@.to_set(),
        }
    }

    pub open spec fn ids_ok(&self) -> bool {
        &&& globals_ids_ok(self.globals@)
        &&& forall|f: int| 0 <= f < self.functions@.len() ==> function_ids_ok(self.functions@, f)
    }

    /// The three leading globals that the generated code relies on.
    pub open spec fn reserved_ok(&self) -> bool {
        &&& self.globals@.len() >= 3
        &&& self.globals@[0].name@ == temp_name() && self.globals@[0].default_value == -100
        &&& self.globals@[1].name@ == return_name() && self.globals@[1].default_value == -200
        &&& self.globals@[2].name@ == return_saver_name() && self.globals@[2].default_value
            == -300
    }

    /// The constant cells cover every default value of a local that is no argument.
    pub open spec fn local_defaults_ok(&self) -> bool {
        forall|f: int, j: int|
            0 <= f < self.functions@.len() && self.functions@[f].args <= j
                < self.functions@[f].locals@.len() ==> self.constants_used@.contains(
                #[trigger] self.functions@[f].locals@[j].default_value,
            )
    }

    pub open spec fn bodies_ok(&self) -> bool {
        forall|f: int|
            0 <= f < self.functions@.len() ==> ((#[trigger] self.functions@[f]).content matches Some(
                b,
            ) ==> block_ok(self.shape(), f, b@))
    }

    pub open spec fn names_unique(&self) -> bool {
        forall|f: int, g: int|
            0 <= f < self.functions@.len() && 0 <= g < self.functions@.len() && f != g
                ==> #[trigger] self.functions@[f].name@ != #[trigger] self.functions@[g].name@
    }

    /// A function of this name, with this many arguments, that is no stack function.
    pub open spec fn has_plain_fn(&self, name: Seq<char>, args: nat) -> bool {
        exists|f: int|
            0 <= f < self.functions@.len() && (#[trigger] self.functions@[f]).name@ == name
                && self.functions@[f].args == args && !self.functions@[f].is_stack
    }

    pub open spec fn uses_stack(&self) -> bool {
        exists|f: int| 0 <= f < self.functions@.len() && (#[trigger] self.functions@[f]).is_stack
    }

    pub open spec fn stack_ok(&self) -> bool {
        self.uses_stack() ==> {
            &&& self.has_plain_fn(push_name(), 1)
            &&& self.has_plain_fn(pop_name(), 0)
            &&& self.has_plain_fn(stack_return_name(), 1)
        }
    }

    pub open spec fn features_ok(&self) -> bool {
        (self.features.bits & STACK_FUNCTIONS == STACK_FUNCTIONS) == self.uses_stack()
    }

    /// What the parser guarantees of the trees it returns, and what code
    /// generation needs.
    pub open spec fn wf(&self) -> bool {
        &&& self.ids_ok()
        &&& self.reserved_ok()
        &&& sorted_unique(self.constants_used@)
        &&& self.local_defaults_ok()
        &&& self.bodies_ok()
        &&& self.names_unique()
        &&& self.has_plain_fn(main_name(), 0)
        &&& self.stack_ok()
        &&& self.features_ok()
    }

    pub open spec fn var_exists(&self, v: VariableId) -> bool {
        var_exists(self.globals@, self.functions@, v)
    }

    pub open spec fn spec_get_var(&self, v: VariableId) -> Variable {
        var_of(self.globals@, self.functions@, v)
    }

    pub fn get_fnc(&self, t: FunctionId) -> (r: &Function)
        requires
            t.0 < self.functions@.len(),
        ensures
            *r == self.functions@[t.0 as int],
    {
        &self.functions[t.0]
    }

    pub fn get_var(&self, t: VariableId) -> (r: &Variable)
        requires
            self.var_exists(t),
        ensures
            *r == self.spec_get_var(t),
    {
        match t.kind {
            VariableType::Local(func_id) => &self.get_fnc(func_id).locals[t.raw],
            VariableType::Global => &self.globals[t.raw],
        }
    }

    pub fn get_temp_var(&self) -> (r: &Variable)
        requires
            self.globals@.len() >= 1,
        ensures
            *r == self.globals@[0],
    {
        self.get_var(VariableId { raw: 0, kind: VariableType::Global })
    }

    pub fn get_ret_var(&self) -> (r: &Variable)
        requires
            self.globals@.len() >= 2,
        ensures
            *r == self.globals@[1],
    {
        self.get_var(VariableId { raw: 1, kind: VariableType::Global })
    }

    /// The position of the first function with this name.
    pub fn find_fnc_index(&self, t: &str) -> (r: Option<usize>)
        ensures
            match r {
                Some(i) => i < self.functions@.len() && self.functions@[i as int].name@ == t@
                    && forall|j: int| 0 <= j < i ==> self.functions@[j].name@ != t@,
                None => forall|j: int|
                    0 <= j < self.functions@.len() ==> self.functions@[j].name@ != t@,
            },
    {
        let key = t.to_owned();
        let mut i: usize = 0;
        while i < self.functions.len()
            invariant
                i <= self.functions@.len(),
                key@ == t@,
                forall|j: int| 0 <= j < i ==> self.functions@[j].name@ != t@,
            decreases self.functions@.len() - i,
        {
            if self.functions[i].name == key {
                return Some(i);
            }
            i += 1;
        }
        None
    }

    pub fn find_fnc_with_name(&self, t: &str) -> (r: Option<&Function>)
        ensures
            match r {
                Some(f) => exists|i: int|
                    0 <= i < self.functions@.len() && self.functions@[i] == *f && f.name@ == t@
                        && forall|j: int| 0 <= j < i ==> self.functions@[j].name@ != t@,
                None => forall|j: int|
                    0 <= j < self.functions@.len() ==> self.functions@[j].name@ != t@,
            },
            match r {
                Some(f) => first_fn(*self, t@) matches Some(i) && 0 <= i < self.functions@.len()
                    && self.functions@[i] == *f,
                None => first_fn(*self, t@) is None,
            },
    {
        match self.find_fnc_index(t) {
            Some(i) => {
                proof {
                    let fns = self.functions@.map_values(|g: Function| fn_shape(g));
                    assert(fns[i as int].name == t@);
                    let c = choose|c: int|
                        0 <= c < fns.len() && fns[c].name == t@ && forall|j: int|
                            0 <= j < c ==> fns[j].name != t@;
                    if c < i {
                        assert(self.functions@[c].name@ == fns[c].name);
                    } else if c > i {
                        assert(fns[i as int].name != t@);
                    }
                }
                Some(&self.functions[i])
            },
            None => None,
        }
    }

    pub fn find_global_var_with_name(&self, t: &String) -> (r: Result<&Variable, String>)
        ensures
            match r {
                Ok(v) => exists|i: int|
                    0 <= i < self.globals@.len() && self.globals@[i] == *v && v.name@ == t@
                        && first_named(self.globals@, t@, 0) == Some(i),
                Err(e) => first_named(self.globals@, t@, 0) is None && e@ == "global variable "@ + t@
                    + " not found"@,
            },
    {
        let mut i: usize = 0;
        while i < self.globals.len()
            invariant
                i <= self.globals@.len(),
                forall|j: int| 0 <= j < i ==> self.globals@[j].name@ != t@,
            decreases self.globals@.len() - i,
        {
            if self.globals[i].name == *t {
                proof {
                    lemma_first_named(self.globals@, t@, 0, i as int);
                }
                return Ok(&self.globals[i]);
            }
            i += 1;
        }
        proof {
            lemma_first_named(self.globals@, t@, 0, i as int);
        }
        let mut msg: Vec<char> = Vec::new();
        push(&mut msg, "global variable ");
        push(&mut msg, t.as_str());
        push(&mut msg, " not found");
        assert(msg@ =~= "global variable "@ + t@ + " not found"@);
        Err(collapse(msg))
    }
}

} // verus!

verus! {

// ---------------------------------------------------------------------------
// Growth of a tree while it is built
/// `b` holds all that `a` holds: the same globals, more functions, more constants.
pub open spec fn shape_le(a: Shape, b: Shape) -> bool {
    &&& a.n_globals == b.n_globals
    &&& a.fns.len() <= b.fns.len()
    &&& forall|i: int| 0 <= i < a.fns.len() ==> b.fns[i] == a.fns[i]
    &&& a.consts.subset_of(b.consts)
}

pub proof fn lemma_arg_mono(a: Shape, b: Shape, f: int, x: ArgumentCallArg)
    requires
        shape_le(a, b),
        arg_ok(a, f, x),
    ensures
        arg_ok(b, f, x),
{
}

pub proof fn lemma_args_mono(a: Shape, b: Shape, f: int, xs: Seq<ArgumentCallArg>)
    requires
        shape_le(a, b),
        args_ok(a, f, xs),
    ensures
        args_ok(b, f, xs),
{
    assert forall|k: int| 0 <= k < xs.len() implies arg_ok(b, f, #[trigger] xs[k]) by {
        lemma_arg_mono(a, b, f, xs[k]);
    };
}

pub proof fn lemma_stmt_mono(a: Shape, b: Shape, f: int, s: Statement)
    requires
        shape_le(a, b),
        stmt_ok(a, f, s),
    ensures
        stmt_ok(b, f, s),
    decreases s,
{
    match s {
        Statement::FunctionCall(c) => {
            lemma_args_mono(a, b, f, c.arguments@);
        },
        Statement::If(i) => {
            lemma_block_mono(a, b, f, i.if_true@);
            if let Some(e) = i.if_false {
                lemma_block_mono(a, b, f, e@);
            }
        },
        _ => {},
    }
}

pub proof fn lemma_block_mono(a: Shape, b: Shape, f: int, bl: Seq<Statement>)
    requires
        shape_le(a, b),
        block_ok(a, f, bl),
    ensures
        block_ok(b, f, bl),
    decreases bl,
{
    assert forall|k: int| 0 <= k < bl.len() implies stmt_ok(b, f, #[trigger] bl[k]) by {
        lemma_stmt_mono(a, b, f, bl[k]);
    };
}

// ---------------------------------------------------------------------------
// Constants
/// Adds `n` to a strictly increasing sequence of constants.
fn insert_constant(v: &mut Vec<i32>, n: i32)
    requires
        sorted_unique(old(v)@),
    ensures
        sorted_unique(final(v)@),
        forall|x: i32| #[trigger] final(v)@.contains(x) <==> (old(v)@.contains(x) || x == n),
{
    let mut i: usize = 0;
    while i < v.len() && v[i] < n
        invariant
            i <= v@.len(),
            forall|k: int| 0 <= k < i ==> v@[k] < n,
        decreases v@.len() - i,
    {
        i += 1;
    }
    if i < v.len() && v[i] == n {
        return;
    }
    let ghost before = v@;
    v.insert(i, n);
    assert forall|x: i32| #[trigger] v@.contains(x) <==> (before.contains(x) || x == n) by {
        if v@.contains(x) {
            let j = choose|j: int| 0 <= j < v@.len() && v@[j] == x;
            if j < i {
                assert(before[j] == x);
            } else if j > i {
                assert(before[j - 1] == x);
            }
        }
        if before.contains(x) {
            let j = choose|j: int| 0 <= j < before.len() && before[j] == x;
            if j < i {
                assert(v@[j] == x);
            } else {
                assert(v@[j + 1] == x);
            }
        }
        if x == n {
            assert(v@[i as int] == x);
        }
    };
}

pub open spec fn seq_set_le(a: Seq<i32>, b: Seq<i32>) -> bool {
    forall|x: i32| #[trigger] a.contains(x) ==> b.contains(x)
}

// ---------------------------------------------------------------------------
// Name resolution inside one function
pub struct BuildingContext<'a> {
    pub cur_function: &'a Function,
    /// The tree so far: the functions up to and including the current one.
    pub cur_tree: &'a ProgramTree,
    /// The literals met in the current function's body.
    pub constants: Vec<i32>,
}

impl<'a> BuildingContext<'a> {
    pub open spec fn fid(&self) -> int {
        self.cur_function.id.0 as int
    }

    pub open spec fn shape(&self) -> Shape {
        Shape {
            n_globals: self.cur_tree.globals@.len(),
            fns: self.cur_tree.shape().fns,
            consts: self.constants@.to_set(),
        }
    }

    pub open spec fn ok(&self) -> bool {
        &&& self.cur_tree.ids_ok()
        &&& 0 <= self.fid() < self.cur_tree.functions@.len()
        &&& self.cur_tree.functions@[self.fid()] == *self.cur_function
        &&& sorted_unique(self.constants@)
    }

    /// Looks a name up among the current function's locals, then the globals.
    pub fn try_find_variable(&self, name: &String) -> (r: Result<&Variable, String>)
        requires
            self.ok(),
        ensures
            r matches Ok(v) ==> var_ok(self.shape(), self.fid(), v.id) && v.name@ == name@,
            match lookup(*self, name@) {
                Some(id) => r matches Ok(v) && v.id == id,
                None => r is Err,
            },
            r matches Err(e) ==> e@ == "neither local nor global "@ + name@ + " found"@,
            r matches Ok(v) ==> match first_named(self.cur_function.locals@, name@, 0) {
                Some(j) => *v == self.cur_function.locals@[j],
                None => first_named(self.cur_tree.globals@, name@, 0) matches Some(i) && 0 <= i
                    < self.cur_tree.globals@.len() && *v == self.cur_tree.globals@[i],
            },
    {
        let locals = &self.cur_function.locals;
        let mut j: usize = 0;
        while j < locals.len()
            invariant
                j <= locals@.len(),
                self.ok(),
                *locals == self.cur_function.locals,
                forall|k: int| 0 <= k < j ==> locals@[k].name@ != name@,
            decreases locals@.len() - j,
        {
            if locals[j].name == *name {
                proof {
                    assert(function_ids_ok(self.cur_tree.functions@, self.fid()));
                    lemma_first_named(locals@, name@, 0, j as int);
                }
                return Ok(&locals[j]);
            }
            j += 1;
        }
        proof {
            lemma_first_named(locals@, name@, 0, j as int);
        }
        match self.cur_tree.find_global_var_with_name(name) {
            Ok(v) => Ok(v),
            Err(_) => {
                let mut msg: Vec<char> = Vec::new();
                push(&mut msg, "neither local nor global ");
                push(&mut msg, name.as_str());
                push(&mut msg, " found");
                assert(msg@ =~= "neither local nor global "@ + name@ + " found"@);
                Err(collapse(msg))
            },
        }
    }
}

/// What a name means inside the current function: its first local of that
/// name, else the first global of that name.
pub open spec fn lookup(c: BuildingContext, name: Seq<char>) -> Option<VariableId> {
    lookup_in(*c.cur_function, *c.cur_tree, name)
}

/// What a name means inside function `f` of `tree`.
pub open spec fn lookup_in(f: Function, tree: ProgramTree, name: Seq<char>) -> Option<VariableId> {
    match first_named(f.locals@, name, 0) {
        Some(j) => Some(f.locals@[j].id),
        None => match first_named(tree.globals@, name, 0) {
            Some(i) => Some(tree.globals@[i].id),
            None => None,
        },
    }
}

/// What name resolution inside one function looks at: the names of its
/// locals, of the globals, the shapes of the functions, and the function's
/// own name and stack status.
pub struct Scope {
    pub locals: Seq<Seq<char>>,
    pub globals: Seq<Seq<char>>,
    pub fns: Seq<FnShape>,
    pub name: Seq<char>,
    pub is_stack: bool,
}

pub open spec fn var_names(vs: Seq<Variable>) -> Seq<Seq<char>> {
    vs.map_values(|v: Variable| v.name@)
}

pub open spec fn scope_of(f: Function, tree: ProgramTree) -> Scope {
    Scope {
        locals: var_names(f.locals@),
        globals: var_names(tree.globals@),
        fns: tree.functions@.map_values(|g: Function| fn_shape(g)),
        name: f.name@,
        is_stack: f.is_stack,
    }
}

/// The name is a local or a global of the scope.
pub open spec fn knows(sc: Scope, x: Seq<char>) -> bool {
    sc.locals.contains(x) || sc.globals.contains(x)
}

proof fn lemma_first_named_none(vs: Seq<Variable>, name: Seq<char>, i: int)
    requires
        0 <= i <= vs.len(),
    ensures
        first_named(vs, name, i) is None <==> forall|k: int| i <= k < vs.len() ==> vs[k].name@ != name,
    decreases vs.len() - i,
{
    if i < vs.len() {
        lemma_first_named_none(vs, name, i + 1);
    }
}

/// A name resolves exactly when the scope knows it.
pub broadcast proof fn lemma_lookup_knows(f: Function, tree: ProgramTree, x: Seq<char>)
    ensures
        (#[trigger] lookup_in(f, tree, x)) is None <==> !knows(scope_of(f, tree), x),
{
    lemma_first_named_none(f.locals@, x, 0);
    lemma_first_named_none(tree.globals@, x, 0);
    let sc = scope_of(f, tree);
    if sc.locals.contains(x) {
        let k = choose|k: int| 0 <= k < sc.locals.len() && sc.locals[k] == x;
        assert(f.locals@[k].name@ == x);
    }
    if sc.globals.contains(x) {
        let k = choose|k: int| 0 <= k < sc.globals.len() && sc.globals[k] == x;
        assert(tree.globals@[k].name@ == x);
    }
    if first_named(f.locals@, x, 0) is Some {
        let k = choose|k: int| 0 <= k < f.locals@.len() && f.locals@[k].name@ == x;
        assert(sc.locals[k] == x);
    }
    if first_named(tree.globals@, x, 0) is Some {
        let k = choose|k: int| 0 <= k < tree.globals@.len() && tree.globals@[k].name@ == x;
        assert(sc.globals[k] == x);
    }
}

/// `b` is `a` with possibly more constants.
pub open spec fn grows(a: BuildingContext, b: BuildingContext) -> bool {
    &&& a.cur_function == b.cur_function
    &&& a.cur_tree == b.cur_tree
    &&& seq_set_le(a.constants@, b.constants@)
}

pub proof fn lemma_grows_shape(a: BuildingContext, b: BuildingContext)
    requires
        grows(a, b),
    ensures
        shape_le(a.shape(), b.shape()),
        a.fid() == b.fid(),
{
}

pub fn is_main(f: &Function) -> (r: bool)
    ensures
        r == (f.name@ == main_name()),
{
    let m = "main".to_owned();
    proof {
        reveal_strlit("main");
        assert(m@ =~= main_name());
    }
    f.name == m
}

/// The tokens hold no more arguments: none left, only `)`, or a prefix
/// symbol without a label after it.
pub open spec fn arg_end(t: Seq<TokenV>) -> bool {
    ||| t.len() == 0
    ||| t == seq![TokenV::Symbol(Symbol::ParenthesisClose)]
    ||| (is_prefix_symbol(t[0]) && (t.len() == 1 || !(t[1] is Label)))
}

pub open spec fn is_prefix_symbol(t: TokenV) -> bool {
    t == TokenV::Symbol(Symbol::Asterix) || t == TokenV::Symbol(Symbol::Ampersand) || t
        == TokenV::Symbol(Symbol::Minus)
}

/// The number of tokens that the argument at the start of `t` takes.
pub open spec fn arg_len(t: Seq<TokenV>) -> int {
    if t[0] is Symbol {
        2
    } else {
        1
    }
}

/// The argument at the start of `t` is `a`: a number is a literal, a name
/// the variable it names, `*name` the value at its address, `&name` its
/// address, `-name` the flag of that name in the current function.
pub open spec fn arg_read(c: BuildingContext, t: Seq<TokenV>, a: ArgumentCallArg) -> bool {
    arg_read_in(*c.cur_function, *c.cur_tree, t, a)
}

/// The argument at the start of `t` is `a`, read inside function `f` of `tree`.
pub open spec fn arg_read_in(f: Function, tree: ProgramTree, t: Seq<TokenV>, a: ArgumentCallArg) -> bool {
    match t[0] {
        TokenV::Number(v) => a == ArgumentCallArg::Literal(v),
        TokenV::Label(x) => lookup_in(f, tree, x) matches Some(id) && a == ArgumentCallArg::Reference(id),
        TokenV::Symbol(Symbol::Asterix) => t[1] matches TokenV::Label(x) && lookup_in(f, tree, x) matches Some(
            id,
        ) && a == ArgumentCallArg::Deref(id),
        TokenV::Symbol(Symbol::Ampersand) => t[1] matches TokenV::Label(x) && lookup_in(f, tree, x) matches Some(
            id,
        ) && a == ArgumentCallArg::GetAddress(id),
        TokenV::Symbol(Symbol::Minus) => t[1] matches TokenV::Label(x) && a matches ArgumentCallArg::Flag(
            l,
            g,
        ) && l@ == x && g == f.id,
        _ => false,
    }
}

/// The arguments that `t` holds are `args`, read one after the other.
pub open spec fn args_match(c: BuildingContext, t: Seq<TokenV>, args: Seq<ArgumentCallArg>) -> bool {
    args_match_in(*c.cur_function, *c.cur_tree, t, args)
}

/// The arguments that `t` holds are `args`, read inside function `f` of `tree`.
pub open spec fn args_match_in(f: Function, tree: ProgramTree, t: Seq<TokenV>, args: Seq<ArgumentCallArg>) -> bool
    decreases args.len(),
{
    if args.len() == 0 {
        arg_end(t)
    } else {
        &&& !arg_end(t)
        &&& arg_read_in(f, tree, t, args[0])
        &&& args_match_in(f, tree, t.subrange(arg_len(t), t.len() as int), args.drop_first())
    }
}

/// An argument that resolves, but for a literal, whose constant is yet to be recorded.
pub open spec fn arg_ok_but_literal(sh: Shape, f: int, a: ArgumentCallArg) -> bool {
    a is Literal || arg_ok(sh, f, a)
}

/// The argument at the start of `t` cannot be read: an unknown name, or a
/// token that no argument starts with.
pub open spec fn arg_fails(sc: Scope, t: Seq<TokenV>) -> bool {
    &&& !arg_end(t)
    &&& match t[0] {
        TokenV::Number(_) => false,
        TokenV::Label(x) => !knows(sc, x),
        TokenV::Symbol(Symbol::Minus) => false,
        TokenV::Symbol(Symbol::Asterix) => t[1] matches TokenV::Label(x) && !knows(sc, x),
        TokenV::Symbol(Symbol::Ampersand) => t[1] matches TokenV::Label(x) && !knows(sc, x),
        _ => true,
    }
}

/// Every argument of `t` can be read, up to the end of the arguments.
pub open spec fn args_readable(sc: Scope, t: Seq<TokenV>) -> bool
    decreases t.len(),
{
    if arg_end(t) {
        true
    } else if arg_fails(sc, t) || arg_len(t) > t.len() || arg_len(t) < 1 {
        false
    } else {
        args_readable(sc, t.subrange(arg_len(t), t.len() as int))
    }
}

/// The number of arguments that `t` holds.
pub open spec fn args_count(t: Seq<TokenV>) -> nat
    decreases t.len(),
{
    if arg_end(t) || arg_len(t) > t.len() || arg_len(t) < 1 {
        0
    } else {
        1 + args_count(t.subrange(arg_len(t), t.len() as int))
    }
}

/// What a line of a block is, as a one-line statement.
pub enum LineKind {
    /// Not a one-line statement.
    Other,
    /// A statement.
    Statement,
    /// A malformed or unresolved statement.
    Error,
}

/// The first function of this name among the shapes.
pub open spec fn first_fn_in(fns: Seq<FnShape>, name: Seq<char>) -> Option<int> {
    if exists|i: int| 0 <= i < fns.len() && fns[i].name == name {
        Some(
            choose|i: int|
                0 <= i < fns.len() && fns[i].name == name && forall|j: int|
                    0 <= j < i ==> fns[j].name != name,
        )
    } else {
        None
    }
}

/// The first function of this name.
pub open spec fn first_fn(tree: ProgramTree, name: Seq<char>) -> Option<int> {
    first_fn_in(tree.functions@.map_values(|g: Function| fn_shape(g)), name)
}

/// The tokens after an optional `name =`: a call `callee ( args.. )`.
pub open spec fn call_kind(sc: Scope, t: Seq<TokenV>) -> LineKind {
    let assigned = t.len() >= 2 && t[0] is Label && t[1] == TokenV::Symbol(Symbol::Equal);
    let u = if assigned {
        t.subrange(2, t.len() as int)
    } else {
        t
    };
    if assigned && !knows(sc, t[0]->Label_0) {
        LineKind::Error
    } else if !(u.len() >= 3 && u[0] is Label && u[1] == TokenV::Symbol(Symbol::ParenthesisOpen)
        && u.last() == TokenV::Symbol(Symbol::ParenthesisClose)) {
        LineKind::Other
    } else {
        match first_fn_in(sc.fns, u[0]->Label_0) {
            None => LineKind::Error,
            Some(g) => {
                let callee = sc.fns[g];
                let args = u.subrange(2, u.len() as int);
                if !args_readable(sc, args) || args_count(args) != callee.args || (
                callee.is_stack && !sc.is_stack && sc.name != main_name()) {
                    LineKind::Error
                } else {
                    LineKind::Statement
                }
            },
        }
    }
}

/// What a line is as a one-line statement: inline code, an assignment
/// `name : = arg`, or a call.
pub open spec fn simple_kind(sc: Scope, t: Seq<TokenV>) -> LineKind {
    if t.len() == 0 {
        LineKind::Other
    } else if t.len() == 1 && t[0] is Inline {
        LineKind::Statement
    } else if assignment_shape(t) {
        let args = t.subrange(3, t.len() as int);
        if !knows(sc, t[0]->Label_0) || !args_readable(sc, args)
            || args_count(args) != 1 {
            LineKind::Error
        } else {
            LineKind::Statement
        }
    } else {
        call_kind(sc, t)
    }
}

/// A line `. name ( .. )`.
pub open spec fn dot_shape(t: Seq<TokenV>) -> bool {
    t.len() >= 4 && t[0] == TokenV::Symbol(Symbol::Dot) && t[1] is Label && t[2] == TokenV::Symbol(
        Symbol::ParenthesisOpen,
    ) && t.last() == TokenV::Symbol(Symbol::ParenthesisClose)
}

/// The line after the true block of an `if`: `.else` or `.noelse`.
pub open spec fn trailer_ok(t: Seq<TokenV>) -> bool {
    t.len() == 2 && t[0] == TokenV::Symbol(Symbol::Dot) && (t[1] == TokenV::Label("else"@) || t[1]
        == TokenV::Label("noelse"@))
}

/// What the lines starting a statement that begins with `.` make: `None` for
/// an error, `Some(None)` where the first line is no such statement,
/// `Some(Some(n))` for a statement of `n` lines.
pub open spec fn advanced_lines(sc: Scope, l: Seq<TokenLine>) -> Option<
    Option<int>,
>
    decreases l.len(), l.len() + 2,
{
    if l.len() == 0 {
        Some(None)
    } else {
        let t = tokens_view(l[0].elements@);
        if !dot_shape(t) {
            Some(None)
        } else {
            let name = t[1]->Label_0;
            if name == "ret"@ {
                let args = t.subrange(3, t.len() - 1);
                if args_readable(sc, args) && args_count(args) <= 1 {
                    Some(Some(1))
                } else {
                    None
                }
            } else if name == "flag"@ {
                if t[3] is Label && t.len() == 5 {
                    Some(Some(1))
                } else {
                    None
                }
            } else if name == "if"@ {
                let args = t.subrange(4, t.len() as int);
                if !(t[3] is CondKind) || !args_readable(sc, args) || args_count(args) != 2 {
                    None
                } else {
                    match block_lines(sc, l.subrange(1, l.len() as int)) {
                        None => None,
                        Some(n1) => {
                            let i = 1 + n1;
                            if i >= l.len() || n1 < 1 || !trailer_ok(tokens_view(l[i].elements@)) {
                                None
                            } else if tokens_view(l[i].elements@)[1] == TokenV::Label("else"@) {
                                match block_lines(sc, l.subrange(i + 1, l.len() as int)) {
                                    None => None,
                                    Some(n2) => Some(Some(i + 1 + n2)),
                                }
                            } else {
                                Some(Some(i + 1))
                            }
                        },
                    }
                }
            } else {
                Some(None)
            }
        }
    }
}

/// The number of lines of the block that `l` starts with, both braces
/// included; `None` where it is no well-formed block.
pub open spec fn block_lines(sc: Scope, l: Seq<TokenLine>) -> Option<int>
    decreases l.len(), l.len() + 1,
{
    if l.len() == 0 || tokens_view(l[0].elements@) != seq![TokenV::Symbol(Symbol::BraceOpen)] {
        None
    } else {
        block_from(sc, l, 1)
    }
}

/// The rest of a block from line `i` on.
pub open spec fn block_from(sc: Scope, l: Seq<TokenLine>, i: int) -> Option<int>
    decreases l.len(), l.len() - i,
{
    if i < 1 || i >= l.len() {
        None
    } else if tokens_view(l[i].elements@) == seq![TokenV::Symbol(Symbol::BraceClose)] {
        Some(i + 1)
    } else {
        match simple_kind(sc, tokens_view(l[i].elements@)) {
            LineKind::Error => None,
            LineKind::Statement => block_from(sc, l, i + 1),
            LineKind::Other => match advanced_lines(sc, l.subrange(i, l.len() as int)) {
                Some(Some(n)) => if 1 <= n && i + n <= l.len() {
                    block_from(sc, l, i + n)
                } else {
                    None
                },
                _ => None,
            },
        }
    }
}

/// The one-line statement `s` is what line `t` says, inside function `f` of `tree`.
pub open spec fn simple_read(f: Function, tree: ProgramTree, t: Seq<TokenV>, s: Statement) -> bool {
    match s {
        Statement::Inline(x) => t == seq![TokenV::Inline(x@)],
        Statement::Assignment(a) => {
            &&& assignment_shape(t)
            &&& lookup_in(f, tree, t[0]->Label_0) == Some(a.left)
            &&& args_match_in(f, tree, t.subrange(3, t.len() as int), seq![a.right])
        },
        Statement::FunctionCall(c) => {
            let k: int = if c.assignment is Some {
                2
            } else {
                0
            };
            &&& c.fnc_id.0 < tree.functions@.len()
            &&& call_shape(t, tree.functions@[c.fnc_id.0 as int].name@, c.assignment is Some)
            &&& first_fn(tree, t[k]->Label_0) == Some(c.fnc_id.0 as int)
            &&& args_match_in(f, tree, t.subrange(k + 2, t.len() as int), c.arguments@)
            &&& c.from == f.id
            &&& (c.assignment matches Some(v) ==> lookup_in(f, tree, t[0]->Label_0) == Some(v))
        },
        _ => false,
    }
}

/// The statement `s` that starts with `.` is what the lines `l` say.
pub open spec fn adv_read(f: Function, tree: ProgramTree, l: Seq<TokenLine>, s: Statement) -> bool
    decreases l.len(), l.len() + 2,
{
    if l.len() == 0 {
        false
    } else {
        let t = tokens_view(l[0].elements@);
        match s {
            Statement::Ret(r) => {
                &&& t.len() >= 4
                &&& t[1] == TokenV::Label("ret"@)
                &&& r.fnc == f.id
                &&& args_match_in(
                    f,
                    tree,
                    t.subrange(3, t.len() - 1),
                    match r.ret_val {
                        Some(v) => seq![v],
                        None => Seq::empty(),
                    },
                )
            },
            Statement::Flag(fl) => t.len() == 5 && t[1] == TokenV::Label("flag"@) && t[3]
                == TokenV::Label(fl.label@),
            Statement::If(i) => {
                let rest = l.subrange(1, l.len() as int);
                &&& t.len() >= 4
                &&& t[1] == TokenV::Label("if"@)
                &&& t[3] == TokenV::CondKind(i.cond)
                &&& args_match_in(f, tree, t.subrange(4, t.len() as int), seq![i.a, i.b])
                &&& block_read(f, tree, rest, i.if_true@)
                &&& match i.if_false {
                    Some(b) => match block_lines(scope_of(f, tree), rest) {
                        Some(n1) => 2 <= n1 && n1 + 2 <= l.len() && block_read(
                            f,
                            tree,
                            l.subrange(n1 + 2, l.len() as int),
                            b@,
                        ),
                        None => false,
                    },
                    None => true,
                }
            },
            _ => false,
        }
    }
}

/// The block that `l` starts with holds the statements `b`.
pub open spec fn block_read(f: Function, tree: ProgramTree, l: Seq<TokenLine>, b: Seq<Statement>) -> bool
    decreases l.len(), l.len() + 1,
{
    l.len() > 0 && block_read_from(f, tree, l, 1, b)
}

/// From line `i` on, the block holds the statements `b`.
pub open spec fn block_read_from(
    f: Function,
    tree: ProgramTree,
    l: Seq<TokenLine>,
    i: int,
    b: Seq<Statement>,
) -> bool
    decreases l.len(), l.len() - i,
{
    if i < 1 || i >= l.len() {
        false
    } else if tokens_view(l[i].elements@) == seq![TokenV::Symbol(Symbol::BraceClose)] {
        b.len() == 0
    } else if b.len() == 0 {
        false
    } else {
        let t = tokens_view(l[i].elements@);
        match simple_kind(scope_of(f, tree), t) {
            LineKind::Statement => simple_read(f, tree, t, b[0]) && block_read_from(
                f,
                tree,
                l,
                i + 1,
                b.drop_first(),
            ),
            LineKind::Other => match advanced_lines(scope_of(f, tree), l.subrange(i, l.len() as int)) {
                Some(Some(n)) => 1 <= n && i + n <= l.len() && adv_read(
                    f,
                    tree,
                    l.subrange(i, l.len() as int),
                    b[0],
                ) && block_read_from(f, tree, l, i + n, b.drop_first()),
                _ => false,
            },
            LineKind::Error => false,
        }
    }
}

/// Two functions in two trees that resolve names alike: the same locals, id,
/// name and stack status, the same globals and the same function shapes.
pub open spec fn same_scope(f1: Function, ta: ProgramTree, f2: Function, tb: ProgramTree) -> bool {
    &&& f1.locals@ == f2.locals@
    &&& f1.id == f2.id
    &&& f1.name@ == f2.name@
    &&& f1.is_stack == f2.is_stack
    &&& ta.globals@ == tb.globals@
    &&& ta.functions@.map_values(|g: Function| fn_shape(g)) == tb.functions@.map_values(
        |g: Function| fn_shape(g),
    )
}

proof fn lemma_args_frame(
    f1: Function,
    ta: ProgramTree,
    f2: Function,
    tb: ProgramTree,
    t: Seq<TokenV>,
    args: Seq<ArgumentCallArg>,
)
    requires
        same_scope(f1, ta, f2, tb),
    ensures
        args_match_in(f1, ta, t, args) == args_match_in(f2, tb, t, args),
    decreases args.len(),
{
    if args.len() > 0 {
        lemma_args_frame(f1, ta, f2, tb, t.subrange(arg_len(t), t.len() as int), args.drop_first());
    }
}

proof fn lemma_scope_frame(f1: Function, ta: ProgramTree, f2: Function, tb: ProgramTree)
    requires
        same_scope(f1, ta, f2, tb),
    ensures
        scope_of(f1, ta) == scope_of(f2, tb),
        forall|name: Seq<char>| #[trigger] first_fn(ta, name) == first_fn(tb, name),
        forall|k: int|
            0 <= k < ta.functions@.len() ==> #[trigger] ta.functions@[k].name@ == tb.functions@[k].name@,
        ta.functions@.len() == tb.functions@.len(),
{
    let m1 = ta.functions@.map_values(|g: Function| fn_shape(g));
    let m2 = tb.functions@.map_values(|g: Function| fn_shape(g));
    assert(m1.len() == m2.len());
    assert forall|k: int| 0 <= k < ta.functions@.len() implies #[trigger] ta.functions@[k].name@
        == tb.functions@[k].name@ by {
        assert(m1[k] == m2[k]);
    };
}

proof fn lemma_simple_frame(f1: Function, ta: ProgramTree, f2: Function, tb: ProgramTree, t: Seq<TokenV>, s: Statement)
    requires
        same_scope(f1, ta, f2, tb),
    ensures
        simple_read(f1, ta, t, s) == simple_read(f2, tb, t, s),
{
    lemma_scope_frame(f1, ta, f2, tb);
    match s {
        Statement::Assignment(a) => {
            lemma_args_frame(f1, ta, f2, tb, t.subrange(3, t.len() as int), seq![a.right]);
        },
        Statement::FunctionCall(c) => {
            let k: int = if c.assignment is Some {
                2
            } else {
                0
            };
            lemma_args_frame(f1, ta, f2, tb, t.subrange(k + 2, t.len() as int), c.arguments@);
        },
        _ => {},
    }
}

proof fn lemma_adv_frame(f1: Function, ta: ProgramTree, f2: Function, tb: ProgramTree, l: Seq<TokenLine>, s: Statement)
    requires
        same_scope(f1, ta, f2, tb),
    ensures
        adv_read(f1, ta, l, s) == adv_read(f2, tb, l, s),
    decreases l.len(), l.len() + 2,
{
    lemma_scope_frame(f1, ta, f2, tb);
    if l.len() > 0 {
        let t = tokens_view(l[0].elements@);
        match s {
            Statement::Ret(r) => {
                lemma_args_frame(
                    f1,
                    ta,
                    f2,
                    tb,
                    t.subrange(3, t.len() - 1),
                    match r.ret_val {
                        Some(v) => seq![v],
                        None => Seq::empty(),
                    },
                );
            },
            Statement::If(i) => {
                let rest = l.subrange(1, l.len() as int);
                lemma_args_frame(f1, ta, f2, tb, t.subrange(4, t.len() as int), seq![i.a, i.b]);
                lemma_block_frame(f1, ta, f2, tb, rest, i.if_true@);
                if let Some(b) = i.if_false {
                    if let Some(n1) = block_lines(scope_of(f1, ta), rest) {
                        if 2 <= n1 && n1 + 2 <= l.len() {
                            lemma_block_frame(f1, ta, f2, tb, l.subrange(n1 + 2, l.len() as int), b@);
                        }
                    }
                }
            },
            _ => {},
        }
    }
}

proof fn lemma_block_frame(f1: Function, ta: ProgramTree, f2: Function, tb: ProgramTree, l: Seq<TokenLine>, b: Seq<Statement>)
    requires
        same_scope(f1, ta, f2, tb),
    ensures
        block_read(f1, ta, l, b) == block_read(f2, tb, l, b),
    decreases l.len(), l.len() + 1,
{
    if l.len() > 0 {
        lemma_block_from_frame(f1, ta, f2, tb, l, 1, b);
    }
}

proof fn lemma_block_from_frame(
    f1: Function,
    ta: ProgramTree,
    f2: Function,
    tb: ProgramTree,
    l: Seq<TokenLine>,
    i: int,
    b: Seq<Statement>,
)
    requires
        same_scope(f1, ta, f2, tb),
    ensures
        block_read_from(f1, ta, l, i, b) == block_read_from(f2, tb, l, i, b),
    decreases l.len(), l.len() - i,
{
    lemma_scope_frame(f1, ta, f2, tb);
    if 1 <= i < l.len() && tokens_view(l[i].elements@) != seq![TokenV::Symbol(Symbol::BraceClose)]
        && b.len() > 0 {
        let t = tokens_view(l[i].elements@);
        match simple_kind(scope_of(f1, ta), t) {
            LineKind::Statement => {
                lemma_simple_frame(f1, ta, f2, tb, t, b[0]);
                lemma_block_from_frame(f1, ta, f2, tb, l, i + 1, b.drop_first());
            },
            LineKind::Other => {
                if let Some(Some(n)) = advanced_lines(scope_of(f1, ta), l.subrange(i, l.len() as int)) {
                    if 1 <= n && i + n <= l.len() {
                        lemma_adv_frame(f1, ta, f2, tb, l.subrange(i, l.len() as int), b[0]);
                        lemma_block_from_frame(f1, ta, f2, tb, l, i + n, b.drop_first());
                    }
                }
            },
            LineKind::Error => {},
        }
    }
}

/// Scope `b` is scope `a` with more functions after the same ones.
pub open spec fn scope_le(a: Scope, b: Scope) -> bool {
    &&& a.locals == b.locals
    &&& a.globals == b.globals
    &&& a.name == b.name
    &&& a.is_stack == b.is_stack
    &&& a.fns.len() <= b.fns.len()
    &&& forall|i: int| 0 <= i < a.fns.len() ==> #[trigger] b.fns[i] == a.fns[i]
}

/// The first function of a name, where there is one, is at a valid position.
proof fn lemma_first_fn_in(a: Seq<FnShape>, name: Seq<char>)
    ensures
        first_fn_in(a, name) matches Some(k) ==> 0 <= k < a.len() && a[k].name == name && forall|j: int|
            0 <= j < k ==> a[j].name != name,
        first_fn_in(a, name) is None ==> forall|j: int| 0 <= j < a.len() ==> a[j].name != name,
{
    if exists|i: int| 0 <= i < a.len() && a[i].name == name {
        let w = choose|i: int| 0 <= i < a.len() && a[i].name == name;
        lemma_least_index(a, name, w);
        let k = choose|i: int|
            0 <= i < a.len() && a[i].name == name && forall|j: int| 0 <= j < i ==> a[j].name != name;
        assert(first_fn_in(a, name) == Some(k));
    }
}

proof fn lemma_least_index(a: Seq<FnShape>, name: Seq<char>, w: int)
    requires
        0 <= w < a.len(),
        a[w].name == name,
    ensures
        exists|i: int| 0 <= i < a.len() && a[i].name == name && forall|j: int| 0 <= j < i ==> a[j].name != name,
    decreases w,
{
    if exists|j: int| 0 <= j < w && a[j].name == name {
        let j = choose|j: int| 0 <= j < w && a[j].name == name;
        lemma_least_index(a, name, j);
    } else {
        assert(forall|j: int| 0 <= j < w ==> a[j].name != name);
    }
}

proof fn lemma_first_fn_mono(a: Seq<FnShape>, b: Seq<FnShape>, name: Seq<char>)
    requires
        a.len() <= b.len(),
        forall|i: int| 0 <= i < a.len() ==> #[trigger] b[i] == a[i],
        first_fn_in(a, name) is Some,
    ensures
        first_fn_in(b, name) == first_fn_in(a, name),
{
    lemma_first_fn_in(a, name);
    lemma_first_fn_in(b, name);
    let k = first_fn_in(a, name)->Some_0;
    assert(b[k] == a[k]);
    if first_fn_in(b, name) is Some {
        let kb = first_fn_in(b, name)->Some_0;
        if kb < k {
            assert(b[kb] == a[kb]);
        } else if kb > k {
            assert(b[k].name == name);
        }
    }
}

proof fn lemma_kind_mono(a: Scope, b: Scope, t: Seq<TokenV>)
    requires
        scope_le(a, b),
    ensures
        simple_kind(a, t) is Statement ==> simple_kind(b, t) is Statement,
        simple_kind(a, t) is Other ==> simple_kind(b, t) is Other,
{
    let assigned = t.len() >= 2 && t[0] is Label && t[1] == TokenV::Symbol(Symbol::Equal);
    let u = if assigned {
        t.subrange(2, t.len() as int)
    } else {
        t
    };
    if u.len() >= 3 && u[0] is Label && first_fn_in(a.fns, u[0]->Label_0) is Some {
        lemma_first_fn_mono(a.fns, b.fns, u[0]->Label_0);
        lemma_first_fn_in(a.fns, u[0]->Label_0);
        let g = first_fn_in(a.fns, u[0]->Label_0)->Some_0;
        assert(b.fns[g] == a.fns[g]);
        assert(args_readable(a, u.subrange(2, u.len() as int)) == args_readable(b, u.subrange(2, u.len() as int))) by {
            lemma_readable_mono(a, b, u.subrange(2, u.len() as int));
        };
    }
    if t.len() >= 3 {
        lemma_readable_mono(a, b, t.subrange(3, t.len() as int));
    }
}

proof fn lemma_readable_mono(a: Scope, b: Scope, t: Seq<TokenV>)
    requires
        scope_le(a, b),
    ensures
        args_readable(a, t) == args_readable(b, t),
    decreases t.len(),
{
    if !arg_end(t) && !arg_fails(a, t) && arg_len(t) <= t.len() && arg_len(t) >= 1 {
        lemma_readable_mono(a, b, t.subrange(arg_len(t), t.len() as int));
    }
}

proof fn lemma_adv_lines_mono(a: Scope, b: Scope, l: Seq<TokenLine>)
    requires
        scope_le(a, b),
        advanced_lines(a, l) is Some,
    ensures
        advanced_lines(b, l) == advanced_lines(a, l),
    decreases l.len(), l.len() + 2,
{
    if l.len() > 0 {
        let t = tokens_view(l[0].elements@);
        if dot_shape(t) {
            if t.len() >= 4 {
                lemma_readable_mono(a, b, t.subrange(3, t.len() - 1));
                lemma_readable_mono(a, b, t.subrange(4, t.len() as int));
            }
            let rest = l.subrange(1, l.len() as int);
            if t[1]->Label_0 == "if"@ && block_lines(a, rest) is Some {
                lemma_block_lines_mono(a, b, rest);
                let n1 = block_lines(a, rest)->Some_0;
                let i = 1 + n1;
                if i < l.len() && n1 >= 1 && block_lines(a, l.subrange(i + 1, l.len() as int)) is Some {
                    lemma_block_lines_mono(a, b, l.subrange(i + 1, l.len() as int));
                }
            }
        }
    }
}

proof fn lemma_block_lines_mono(a: Scope, b: Scope, l: Seq<TokenLine>)
    requires
        scope_le(a, b),
        block_lines(a, l) is Some,
    ensures
        block_lines(b, l) == block_lines(a, l),
    decreases l.len(), l.len() + 1,
{
    lemma_block_from_mono(a, b, l, 1);
}

proof fn lemma_block_from_mono(a: Scope, b: Scope, l: Seq<TokenLine>, i: int)
    requires
        scope_le(a, b),
        block_from(a, l, i) is Some,
    ensures
        block_from(b, l, i) == block_from(a, l, i),
    decreases l.len(), l.len() - i,
{
    if 1 <= i < l.len() && tokens_view(l[i].elements@) != seq![TokenV::Symbol(Symbol::BraceClose)] {
        let t = tokens_view(l[i].elements@);
        lemma_kind_mono(a, b, t);
        match simple_kind(a, t) {
            LineKind::Statement => {
                lemma_block_from_mono(a, b, l, i + 1);
            },
            LineKind::Other => {
                lemma_adv_lines_mono(a, b, l.subrange(i, l.len() as int));
                if let Some(Some(n)) = advanced_lines(a, l.subrange(i, l.len() as int)) {
                    if 1 <= n && i + n <= l.len() {
                        lemma_block_from_mono(a, b, l, i + n);
                    }
                }
            },
            LineKind::Error => {},
        }
    }
}

/// `tb` is `ta` with more functions after the same ones, and the same globals.
pub open spec fn tree_ext(ta: ProgramTree, tb: ProgramTree) -> bool {
    &&& ta.globals@ == tb.globals@
    &&& ta.functions@.len() <= tb.functions@.len()
    &&& forall|i: int| 0 <= i < ta.functions@.len() ==> #[trigger] tb.functions@[i] == ta.functions@[i]
}

proof fn lemma_ext_scope(f: Function, ta: ProgramTree, tb: ProgramTree)
    requires
        tree_ext(ta, tb),
    ensures
        scope_le(scope_of(f, ta), scope_of(f, tb)),
        forall|name: Seq<char>| first_fn(ta, name) is Some ==> #[trigger] first_fn(tb, name) == first_fn(ta, name),
{
    let a = scope_of(f, ta);
    let b = scope_of(f, tb);
    assert forall|i: int| 0 <= i < a.fns.len() implies #[trigger] b.fns[i] == a.fns[i] by {
        assert(tb.functions@[i] == ta.functions@[i]);
    };
    assert forall|name: Seq<char>| first_fn(ta, name) is Some implies #[trigger] first_fn(tb, name) == first_fn(ta, name) by {
        lemma_first_fn_mono(a.fns, b.fns, name);
    };
}

proof fn lemma_args_globals(f: Function, ta: ProgramTree, tb: ProgramTree, t: Seq<TokenV>, args: Seq<ArgumentCallArg>)
    requires
        ta.globals@ == tb.globals@,
    ensures
        args_match_in(f, ta, t, args) == args_match_in(f, tb, t, args),
    decreases args.len(),
{
    if args.len() > 0 {
        lemma_args_globals(f, ta, tb, t.subrange(arg_len(t), t.len() as int), args.drop_first());
    }
}

proof fn lemma_simple_ext(f: Function, ta: ProgramTree, tb: ProgramTree, t: Seq<TokenV>, s: Statement)
    requires
        tree_ext(ta, tb),
        simple_read(f, ta, t, s),
    ensures
        simple_read(f, tb, t, s),
{
    lemma_ext_scope(f, ta, tb);
    match s {
        Statement::Assignment(a) => {
            lemma_args_globals(f, ta, tb, t.subrange(3, t.len() as int), seq![a.right]);
        },
        Statement::FunctionCall(c) => {
            let k: int = if c.assignment is Some {
                2
            } else {
                0
            };
            lemma_args_globals(f, ta, tb, t.subrange(k + 2, t.len() as int), c.arguments@);
            assert(tb.functions@[c.fnc_id.0 as int] == ta.functions@[c.fnc_id.0 as int]);
            assert(first_fn(tb, t[k]->Label_0) == first_fn(ta, t[k]->Label_0));
        },
        _ => {},
    }
}

proof fn lemma_adv_ext(f: Function, ta: ProgramTree, tb: ProgramTree, l: Seq<TokenLine>, s: Statement)
    requires
        tree_ext(ta, tb),
        adv_read(f, ta, l, s),
    ensures
        adv_read(f, tb, l, s),
    decreases l.len(), l.len() + 2,
{
    lemma_ext_scope(f, ta, tb);
    let t = tokens_view(l[0].elements@);
    match s {
        Statement::Ret(r) => {
            lemma_args_globals(
                f,
                ta,
                tb,
                t.subrange(3, t.len() - 1),
                match r.ret_val {
                    Some(v) => seq![v],
                    None => Seq::empty(),
                },
            );
        },
        Statement::If(i) => {
            let rest = l.subrange(1, l.len() as int);
            lemma_args_globals(f, ta, tb, t.subrange(4, t.len() as int), seq![i.a, i.b]);
            lemma_block_ext(f, ta, tb, rest, i.if_true@);
            if let Some(b) = i.if_false {
                lemma_block_lines_mono(scope_of(f, ta), scope_of(f, tb), rest);
                let n1 = block_lines(scope_of(f, ta), rest)->Some_0;
                lemma_block_ext(f, ta, tb, l.subrange(n1 + 2, l.len() as int), b@);
            }
        },
        _ => {},
    }
}

proof fn lemma_block_ext(f: Function, ta: ProgramTree, tb: ProgramTree, l: Seq<TokenLine>, b: Seq<Statement>)
    requires
        tree_ext(ta, tb),
        block_read(f, ta, l, b),
    ensures
        block_read(f, tb, l, b),
    decreases l.len(), l.len() + 1,
{
    lemma_block_from_ext(f, ta, tb, l, 1, b);
}

proof fn lemma_block_from_ext(f: Function, ta: ProgramTree, tb: ProgramTree, l: Seq<TokenLine>, i: int, b: Seq<Statement>)
    requires
        tree_ext(ta, tb),
        block_read_from(f, ta, l, i, b),
    ensures
        block_read_from(f, tb, l, i, b),
    decreases l.len(), l.len() - i,
{
    lemma_ext_scope(f, ta, tb);
    let a = scope_of(f, ta);
    let c = scope_of(f, tb);
    if tokens_view(l[i].elements@) != seq![TokenV::Symbol(Symbol::BraceClose)] {
        let t = tokens_view(l[i].elements@);
        lemma_kind_mono(a, c, t);
        match simple_kind(a, t) {
            LineKind::Statement => {
                lemma_simple_ext(f, ta, tb, t, b[0]);
                lemma_block_from_ext(f, ta, tb, l, i + 1, b.drop_first());
            },
            LineKind::Other => {
                lemma_adv_lines_mono(a, c, l.subrange(i, l.len() as int));
                let n = advanced_lines(a, l.subrange(i, l.len() as int))->Some_0->Some_0;
                lemma_adv_ext(f, ta, tb, l.subrange(i, l.len() as int), b[0]);
                lemma_block_from_ext(f, ta, tb, l, i + n, b.drop_first());
            },
            LineKind::Error => {},
        }
    }
}

/// Reads one argument at the start of `tokens`; `Ok(None)` where the tokens
/// end, or only `)` is left, or a prefix symbol has no label after it.
fn parse_argument_next(tokens: &[Token], context: &BuildingContext) -> (r: Result<
    Option<(ArgumentCallArg, usize)>,
    String,
>)
    requires
        context.ok(),
    ensures
        r matches Ok(Some((a, n))) ==> 1 <= n <= tokens@.len() && arg_ok_but_literal(
            context.shape(),
            context.fid(),
            a,
        ) && !arg_end(tokens_view(tokens@)) && n == arg_len(tokens_view(tokens@)) && arg_read(
            *context,
            tokens_view(tokens@),
            a,
        ),
        r matches Ok(None) <==> arg_end(tokens_view(tokens@)),
        r is Err <==> arg_fails(scope_of(*context.cur_function, *context.cur_tree), tokens_view(tokens@)),
{
    broadcast use lemma_lookup_knows;

    if tokens.len() == 0 {
        return Ok(None);
    }
    if tokens.len() == 1 && tokens[0] == Token::Symbol(Symbol::ParenthesisClose) {
        assert(tokens_view(tokens@) =~= seq![TokenV::Symbol(Symbol::ParenthesisClose)]);
        return Ok(None);
    }
    let ghost t = tokens_view(tokens@);
    assert(t.len() > 0 && t != seq![TokenV::Symbol(Symbol::ParenthesisClose)]) by {
        if t.len() == 1 && t == seq![TokenV::Symbol(Symbol::ParenthesisClose)] {
            assert(tokens@[0]@ == t[0]);
        }
    };
    match &tokens[0] {
        Token::Label(label) => {
            assert(t[0] == TokenV::Label(label@));
            assert(!arg_end(t));
            let v = context.try_find_variable(label)?;
            Ok(Some((ArgumentCallArg::Reference(v.id), 1)))
        },
        Token::Symbol(s) => {
            let s = *s;
            assert(t[0] == TokenV::Symbol(s));
            if s == Symbol::Asterix || s == Symbol::Ampersand || s == Symbol::Minus {
                if tokens.len() == 1 {
                    return Ok(None);
                }
                match &tokens[1] {
                    Token::Label(label) => {
                        assert(t[1] == TokenV::Label(label@));
                        assert(!arg_end(t));
                        if s == Symbol::Asterix {
                            let v = context.try_find_variable(label)?;
                            Ok(Some((ArgumentCallArg::Deref(v.id), 2)))
                        } else if s == Symbol::Ampersand {
                            let v = context.try_find_variable(label)?;
                            Ok(Some((ArgumentCallArg::GetAddress(v.id), 2)))
                        } else {
                            let a = ArgumentCallArg::Flag(label.clone(), context.cur_function.id);
                            assert(arg_read(*context, t, a));
                            Ok(Some((a, 2)))
                        }
                    },
                    _ => {
                        assert(!(t[1] is Label));
                        Ok(None)
                    },
                }
            } else {
                assert(!arg_end(t));
                Err("Incorrect token while parsing arguments".to_owned())
            }
        },
        Token::Number(num) => {
            assert(t[0] == TokenV::Number(*num));
            assert(!arg_end(t));
            Ok(Some((ArgumentCallArg::Literal(*num), 1)))
        },
        _ => {
            assert(!arg_end(t));
            Err("Incorrect token while parsing arguments".to_owned())
        },
    }
}

/// Reads arguments until the tokens end or a closing `)` ends them, and
/// records each literal as a constant.
fn parse_call_arguments(tokens: &[Token], context: &mut BuildingContext) -> (r: Result<
    Vec<ArgumentCallArg>,
    String,
>)
    requires
        old(context).ok(),
    ensures
        final(context).ok(),
        grows(*old(context), *final(context)),
        r matches Ok(args) ==> args_ok(final(context).shape(), final(context).fid(), args@),
        r matches Ok(args) ==> args_match(*old(context), tokens_view(tokens@), args@),
        r is Ok <==> args_readable(scope_of(*old(context).cur_function, *old(context).cur_tree), tokens_view(tokens@)),
        r matches Ok(args) ==> args@.len() == args_count(tokens_view(tokens@)),
{
    let ghost c0 = *context;
    let mut rest: &[Token] = tokens;
    let mut result: Vec<ArgumentCallArg> = Vec::new();
    loop
        invariant
            context.ok(),
            grows(*old(context), *context),
            c0 == *old(context),
            args_ok(context.shape(), context.fid(), result@),
            forall|x: Seq<ArgumentCallArg>|
                #[trigger] args_match(c0, tokens_view(rest@), x) ==> args_match(
                    c0,
                    tokens_view(tokens@),
                    result@ + x,
                ),
            args_readable(scope_of(*c0.cur_function, *c0.cur_tree), tokens_view(tokens@)) == args_readable(
                scope_of(*c0.cur_function, *c0.cur_tree),
                tokens_view(rest@),
            ),
            args_count(tokens_view(tokens@)) == result@.len() + args_count(tokens_view(rest@)),
        decreases rest@.len(),
    {
        let step = parse_argument_next(rest, context)?;
        match step {
            None => {
                proof {
                    assert(args_match(c0, tokens_view(rest@), Seq::empty()));
                    assert(result@ + Seq::<ArgumentCallArg>::empty() =~= result@);
                }
                return Ok(result);
            },
            Some((arg, n)) => {
                proof {
                    let tv = tokens_view(rest@);
                    assert(tokens_view(rest@.subrange(n as int, rest@.len() as int)) =~= tv.subrange(
                        n as int,
                        tv.len() as int,
                    ));
                }
                let ghost rest_before = rest@;
                let ghost result_before = result@;
                assert(arg_read(c0, tokens_view(rest@), arg));
                let ghost before = *context;
                if let ArgumentCallArg::Literal(v) = arg {
                    insert_constant(&mut context.constants, v);
                }
                proof {
                    lemma_grows_shape(before, *context);
                    lemma_args_mono(before.shape(), context.shape(), context.fid(), result@);
                }
                result.push(arg);
                assert(result@.last() == arg);
                rest = &rest[n..rest.len()];
                proof {
                    let tv = tokens_view(rest_before);
                    assert(tokens_view(rest@) =~= tv.subrange(n as int, tv.len() as int));
                    assert forall|x: Seq<ArgumentCallArg>|
                        #[trigger] args_match(c0, tokens_view(rest@), x) implies args_match(
                        c0,
                        tokens_view(tokens@),
                        result@ + x,
                    ) by {
                        let y = seq![arg] + x;
                        assert(y.drop_first() =~= x);
                        assert(y[0] == arg);
                        assert(args_match(c0, tv, y));
                        assert(result_before + y =~= result@ + x);
                    };
                }
            },
        }
    }
}

} // verus!

verus! {

pub type ParserError = LinedError;

impl LinedError {
    /// An error at the given line of tokens.
    pub fn upgrade(content: String, token_line: &TokenLine) -> (r: LinedError)
        ensures
            r.line == token_line.line_number,
            r.related_text@ == token_line.org@,
            r.content@ == content@,
    {
        LinedError::new(token_line.line_number, token_line.org.clone(), content)
    }

    /// An error of the program as a whole.
    pub fn general(content: String) -> (r: LinedError)
        ensures
            r.line == 0,
            r.related_text@.len() == 0,
            r.content@ == content@,
    {
        LinedError::new(0, String::new(), content)
    }
}

pub fn match_exact_w_upgrade(pattern: &Vec<(TokenReq, IndexReq)>, token_line: &TokenLine) -> (r:
    Result<(), ParserError>)
    ensures
        r is Ok == pattern_matches(pattern@, tokens_view(token_line.elements@)),
        r matches Err(e) ==> e.line == token_line.line_number,
{
    match match_exact(pattern, token_line.elements.as_slice()) {
        Ok(()) => Ok(()),
        Err(e) => Err(LinedError::upgrade(e, token_line)),
    }
}

/// The line holds the one symbol `s` and nothing else.
pub fn match_upgrade_symbol_only(t: &TokenLine, s: Symbol) -> (r: Result<(), ParserError>)
    ensures
        r is Ok == (tokens_view(t.elements@) == seq![TokenV::Symbol(s)]),
{
    let pattern = vec![(TokenReq::m_symbol(s), IndexReq::Next), (TokenReq::NoToken, IndexReq::Next)];
    let r = match_exact_w_upgrade(&pattern, t);
    proof {
        let tv = tokens_view(t.elements@);
        if r is Ok {
            lemma_pattern_prefix(pattern@, tv, 1);
            reveal_with_fuel(pattern_failure, 2);
            assert(tv =~= seq![TokenV::Symbol(s)]);
        } else if tv == seq![TokenV::Symbol(s)] {
            reveal_with_fuel(pattern_failure, 3);
            reveal_with_fuel(first_failing, 2);
            assert(pattern_matches(pattern@, tv));
        }
    }
    r
}

pub fn symbol_only(t: &TokenLine, s: Symbol) -> (r: bool)
    ensures
        r == (tokens_view(t.elements@) == seq![TokenV::Symbol(s)]),
{
    match_upgrade_symbol_only(t, s).is_ok()
}

fn parse_inline_if_present(tokens: &[Token]) -> (r: Result<Option<Inline>, String>)
    ensures
        r is Ok,
        r matches Ok(Some(i)) ==> tokens_view(tokens@) == seq![TokenV::Inline(i.0@)],
        r matches Ok(Some(_)) <==> tokens@.len() == 1 && tokens_view(tokens@)[0] is Inline,
{
    let pattern = vec![(TokenReq::Inline, IndexReq::Next), (TokenReq::NoToken, IndexReq::Next)];
    proof {
        let tv = tokens_view(tokens@);
        if tv.len() == 1 && tv[0] is Inline {
            reveal_with_fuel(pattern_failure, 3);
            reveal_with_fuel(first_failing, 2);
            assert(pattern_matches(pattern@, tv));
        }
    }
    if match_exact_cond(&pattern, tokens) {
        proof {
            lemma_pattern_prefix(pattern@, tokens_view(tokens@), 2);
            assert(!(pattern@[0].0 is NoToken));
            let tv = tokens_view(tokens@);
            if tv.len() > 1 {
                assert(req_ok(pattern@[1].0, tv[1]));
            }
        }
        match &tokens[0] {
            Token::Inline(i) => {
                let r = Inline(i.0.clone());
                assert(tokens_view(tokens@) =~= seq![TokenV::Inline(r.0@)]);
                Ok(Some(r))
            },
            _ => Ok(None),
        }
    } else {
        Ok(None)
    }
}

/// A line `name : = ..`.
pub open spec fn assignment_shape(t: Seq<TokenV>) -> bool {
    t.len() >= 3 && t[0] is Label && t[1] == TokenV::Symbol(Symbol::Colon) && t[2] == TokenV::Symbol(
        Symbol::Equal,
    )
}

/// The statement of one line fits the tokens of that line.
pub open spec fn simple_shape(t: Seq<TokenV>, s: Statement, tree: &ProgramTree) -> bool {
    match s {
        Statement::Inline(x) => t == seq![TokenV::Inline(x@)],
        Statement::Assignment(_) => assignment_shape(t),
        Statement::FunctionCall(c) => call_shape(
            t,
            tree.functions@[c.fnc_id.0 as int].name@,
            c.assignment is Some,
        ),
        _ => false,
    }
}

/// The statement that starts with line `t`, a line `. name ( .. )`.
pub open spec fn advanced_shape(t: Seq<TokenV>, s: Statement) -> bool {
    &&& t.len() >= 4
    &&& t[0] == TokenV::Symbol(Symbol::Dot)
    &&& t[2] == TokenV::Symbol(Symbol::ParenthesisOpen)
    &&& t.last() == TokenV::Symbol(Symbol::ParenthesisClose)
    &&& match s {
        Statement::Ret(_) => t[1] == TokenV::Label("ret"@),
        Statement::Flag(f) => t[1] == TokenV::Label("flag"@) && t.len() == 5 && t[3]
            == TokenV::Label(f.label@),
        Statement::If(i) => t[1] == TokenV::Label("if"@) && t[3] == TokenV::CondKind(i.cond),
        _ => false,
    }
}

fn parse_assignment_if_present(tokens: &[Token], context: &mut BuildingContext) -> (r: Result<
    Option<Assignment>,
    String,
>)
    requires
        old(context).ok(),
    ensures
        final(context).ok(),
        grows(*old(context), *final(context)),
        r matches Ok(Some(a)) ==> var_ok(final(context).shape(), final(context).fid(), a.left)
            && arg_ok(final(context).shape(), final(context).fid(), a.right) && assignment_shape(
            tokens_view(tokens@),
        ) && (tokens_view(tokens@)[0] matches TokenV::Label(x) && lookup(*old(context), x) == Some(
            a.left,
        )) && args_match(
            *old(context),
            tokens_view(tokens@).subrange(3, tokens@.len() as int),
            seq![a.right],
        ),
        r matches Ok(None) <==> !assignment_shape(tokens_view(tokens@)),
        r is Err <==> assignment_shape(tokens_view(tokens@)) && {
            let t = tokens_view(tokens@);
            let args = t.subrange(3, t.len() as int);
            !knows(scope_of(*old(context).cur_function, *old(context).cur_tree), t[0]->Label_0)
                || !args_readable(scope_of(*old(context).cur_function, *old(context).cur_tree), args)
                || args_count(args) != 1
        },
{
    broadcast use lemma_lookup_knows;

    let pattern = vec![
        (TokenReq::Label, IndexReq::Next),
        (TokenReq::m_symbol(Symbol::Colon), IndexReq::Next),
        (TokenReq::m_symbol(Symbol::Equal), IndexReq::Next),
    ];
    proof {
        let tv = tokens_view(tokens@);
        if assignment_shape(tv) {
            reveal_with_fuel(pattern_failure, 4);
            reveal_with_fuel(first_failing, 2);
            assert(pattern_matches(pattern@, tv));
        }
    }
    if !match_exact_cond(&pattern, tokens) {
        return Ok(None);
    }
    proof {
        lemma_pattern_prefix(pattern@, tokens_view(tokens@), 3);
        assert(!(pattern@[2].0 is NoToken));
        assert(req_ok(pattern@[0].0, tokens_view(tokens@)[0]));
        assert(req_ok(pattern@[1].0, tokens_view(tokens@)[1]));
        assert(req_ok(pattern@[2].0, tokens_view(tokens@)[2]));
    }
    let left = match &tokens[0] {
        Token::Label(left_text) => context.try_find_variable(left_text)?.id,
        _ => {
            return Ok(None);
        },
    };
    let ghost c0 = *context;
    assert(tokens_view(tokens@.subrange(3, tokens@.len() as int)) =~= tokens_view(tokens@).subrange(
        3,
        tokens@.len() as int,
    ));
    let arguments = parse_call_arguments(&tokens[3..tokens.len()], context)?;
    if arguments.len() != 1 {
        return Err("Assignment requires exactly one argument at the right side".to_owned());
    }
    let right = arguments[0].duplicate();
    proof {
        assert(arguments@ =~= seq![right]);
        assert(tokens_view(tokens@.subrange(3, tokens@.len() as int)) =~= tokens_view(tokens@).subrange(
            3,
            tokens@.len() as int,
        ));
    }
    Ok(Some(Assignment { left, right }))
}

/// A line `[name =] callee ( args.. )`; `assigned` where the result is kept.
pub open spec fn call_shape(t: Seq<TokenV>, callee: Seq<char>, assigned: bool) -> bool {
    let k: int = if assigned {
        2
    } else {
        0
    };
    &&& t.len() >= k + 3
    &&& t[k] == TokenV::Label(callee)
    &&& t[k + 1] == TokenV::Symbol(Symbol::ParenthesisOpen)
    &&& t.last() == TokenV::Symbol(Symbol::ParenthesisClose)
    &&& assigned ==> t[0] is Label && t[1] == TokenV::Symbol(Symbol::Equal)
}

#[verifier::rlimit(100)]
fn parse_function_call_if_present(tokens: &[Token], context: &mut BuildingContext) -> (r: Result<
    Option<FunctionCall>,
    String,
>)
    requires
        old(context).ok(),
    ensures
        final(context).ok(),
        grows(*old(context), *final(context)),
        r matches Ok(Some(c)) ==> call_ok(final(context).shape(), final(context).fid(), c)
            && call_shape(
            tokens_view(tokens@),
            final(context).cur_tree.functions@[c.fnc_id.0 as int].name@,
            c.assignment is Some,
        ) && args_match(
            *old(context),
            tokens_view(tokens@).subrange(
                if c.assignment is Some {
                    4
                } else {
                    2
                },
                tokens@.len() as int,
            ),
            c.arguments@,
        ) && (c.assignment matches Some(v) ==> (tokens_view(tokens@)[0] matches TokenV::Label(x)
            && lookup(*old(context), x) == Some(v))),
        r matches Ok(Some(c)) ==> simple_read(
            *old(context).cur_function,
            *old(context).cur_tree,
            tokens_view(tokens@),
            Statement::FunctionCall(c),
        ),
        match call_kind(scope_of(*old(context).cur_function, *old(context).cur_tree), tokens_view(tokens@)) {
            LineKind::Other => r matches Ok(None),
            LineKind::Statement => r matches Ok(Some(_)),
            LineKind::Error => r is Err,
        },
{
    let ghost whole = tokens_view(tokens@);
    let ghost f0 = *context.cur_function;
    let ghost tree0 = *context.cur_tree;
    let mut tokens = tokens;
    let mut assignment: Option<VariableId> = None;
    let assign_pattern = vec![
        (TokenReq::Label, IndexReq::Next),
        (TokenReq::m_symbol(Symbol::Equal), IndexReq::Next),
    ];
    let ghost assigned = whole.len() >= 2 && whole[0] is Label && whole[1] == TokenV::Symbol(
        Symbol::Equal,
    );
    proof {
        if assigned {
            reveal_with_fuel(pattern_failure, 3);
            reveal_with_fuel(first_failing, 2);
            assert(pattern_matches(assign_pattern@, whole));
        }
    }
    if match_exact_cond(&assign_pattern, tokens) {
        proof {
            lemma_pattern_prefix(assign_pattern@, tokens_view(tokens@), 2);
            assert(!(assign_pattern@[1].0 is NoToken));
            assert(req_ok(assign_pattern@[0].0, tokens_view(tokens@)[0]));
            assert(req_ok(assign_pattern@[1].0, tokens_view(tokens@)[1]));
        }
        match &tokens[0] {
            Token::Label(name) => {
                proof {
                    lemma_lookup_knows(f0, tree0, name@);
                }
                assignment = Some(context.try_find_variable(name)?.id);
            },
            _ => {
                return Ok(None);
            },
        }
        tokens = &tokens[2..tokens.len()];
    }
    let ghost c1 = *context;
    assert(assignment matches Some(v) ==> var_ok(c1.shape(), c1.fid(), v));
    let call_pattern = vec![
        (TokenReq::Label, IndexReq::Next),
        (TokenReq::m_symbol(Symbol::ParenthesisOpen), IndexReq::Next),
        (TokenReq::m_symbol(Symbol::ParenthesisClose), IndexReq::End(0)),
    ];
    proof {
        let u = tokens_view(tokens@);
        if assigned {
            assert(u =~= whole.subrange(2, whole.len() as int));
        } else {
            assert(u == whole);
        }
        if u.len() >= 3 && u[0] is Label && u[1] == TokenV::Symbol(Symbol::ParenthesisOpen)
            && u.last() == TokenV::Symbol(Symbol::ParenthesisClose) {
            reveal_with_fuel(pattern_failure, 4);
            reveal_with_fuel(first_failing, 2);
            assert(pattern_matches(call_pattern@, u));
        }
    }
    if !match_exact_cond(&call_pattern, tokens) {
        return Ok(None);
    }
    proof {
        lemma_pattern_prefix(call_pattern@, tokens_view(tokens@), 2);
        lemma_pattern_last(call_pattern@, tokens_view(tokens@), 2, 2);
        assert(!(call_pattern@[1].0 is NoToken));
        assert(req_ok(call_pattern@[0].0, tokens_view(tokens@)[0]));
        assert(req_ok(call_pattern@[1].0, tokens_view(tokens@)[1]));
        let tv = tokens_view(tokens@);
        assert(req_ok(call_pattern@[2].0, tv[tv.len() - 1]));
        assert(tv.len() >= 3);
        if assignment is Some {
            assert(tv =~= whole.subrange(2, whole.len() as int));
        } else {
            assert(tv == whole);
        }
    }
    let label = match &tokens[0] {
        Token::Label(label) => label,
        _ => {
            return Ok(None);
        },
    };
    let tree = context.cur_tree;
    let function = match tree.find_fnc_with_name(label.as_str()) {
        Some(f) => f,
        None => {
            let mut msg: Vec<char> = Vec::new();
            push(&mut msg, "function ");
            push(&mut msg, label.as_str());
            push(&mut msg, " not found");
            return Err(collapse(msg));
        },
    };
    let ghost fi = first_fn(*tree, label@)->Some_0;
    proof {
        assert(tree.functions@[fi] == *function);
        assert(function.name@ == label@);
        assert(function_ids_ok(tree.functions@, fi));
        assert(function.id.0 == fi);
    }
    proof {
        let k: int = if assignment is Some {
            2
        } else {
            0
        };
        assert(tokens_view(tokens@.subrange(2, tokens@.len() as int)) =~= whole.subrange(
            k + 2,
            whole.len() as int,
        ));
        assert(tokens_view(tokens@.subrange(2, tokens@.len() as int)) =~= tokens_view(tokens@).subrange(
            2,
            tokens@.len() as int,
        ));
    }
    let arguments_got = parse_call_arguments(&tokens[2..tokens.len()], context)?;
    if arguments_got.len() != function.args {
        let mut msg: Vec<char> = Vec::new();
        push(&mut msg, "Function takes ");
        push_nat(&mut msg, function.args as u64);
        push(&mut msg, " but ");
        push_nat(&mut msg, arguments_got.len() as u64);
        push(&mut msg, " were given");
        return Err(collapse(msg));
    }
    if function.is_stack && (!context.cur_function.is_stack && !is_main(context.cur_function)) {
        let mut msg: Vec<char> = Vec::new();
        push(&mut msg, "Can't call ");
        push(&mut msg, function.name.as_str());
        push(&mut msg, " from ");
        push(&mut msg, context.cur_function.name.as_str());
        push(
            &mut msg,
            ". Stack function can be called only from other stack functions or from main",
        );
        return Err(collapse(msg));
    }
    proof {
        assert(context.cur_tree == tree);
        assert(context.shape().fns[fi] == fn_shape(tree.functions@[fi]));
        assert(context.shape().fns[context.fid()] == fn_shape(*context.cur_function));
        if let Some(v) = assignment {
            assert(var_ok(c1.shape(), c1.fid(), v));
        }
    }
    let call = FunctionCall::new(function.id, arguments_got, assignment, context.cur_function.id);
    proof {
        let sh = context.shape();
        let f = context.fid();
        assert(0 <= f < sh.fns.len());
        assert(context.cur_tree.functions@[call.fnc_id.0 as int].name@ == label@);
        assert(call.fnc_id.0 < sh.fns.len());
        assert(call.from.0 == f);
        assert(call.fnc_id.0 == fi);
        assert(sh.fns[fi].args == function.args);
        assert(call.arguments@.len() == function.args);
        assert(call.arguments@.len() == sh.fns[call.fnc_id.0 as int].args);
        assert(args_ok(sh, f, call.arguments@));
        assert(call.assignment matches Some(v) ==> var_ok(sh, f, v));
    }
    Ok(Some(call))
}

/// A statement of one line: inline code, an assignment or a call.
fn parse_simple(tokens: &[Token], context: &mut BuildingContext) -> (r: Result<
    Option<Statement>,
    String,
>)
    requires
        old(context).ok(),
    ensures
        final(context).ok(),
        grows(*old(context), *final(context)),
        r matches Ok(Some(s)) ==> stmt_ok(final(context).shape(), final(context).fid(), s)
            && simple_shape(tokens_view(tokens@), s, final(context).cur_tree),
        r matches Ok(Some(s)) ==> simple_read(
            *old(context).cur_function,
            *old(context).cur_tree,
            tokens_view(tokens@),
            s,
        ),
        match simple_kind(scope_of(*old(context).cur_function, *old(context).cur_tree), tokens_view(tokens@)) {
            LineKind::Other => r matches Ok(None),
            LineKind::Statement => r matches Ok(Some(_)),
            LineKind::Error => r is Err,
        },
{
    if tokens.len() == 0 {
        return Ok(None);
    }
    if let Some(inline) = parse_inline_if_present(tokens)? {
        return Ok(Some(Statement::Inline(inline.0)));
    }
    if let Some(assignment) = parse_assignment_if_present(tokens, context)? {
        return Ok(Some(Statement::Assignment(assignment)));
    }
    if let Some(call) = parse_function_call_if_present(tokens, context)? {
        return Ok(Some(Statement::FunctionCall(call)));
    }
    Ok(None)
}

} // verus!

verus! {

/// A block: a line `{`, statements, a line `}`. The step counts the lines
/// taken, both braces included.
fn parse_internal(lines: &[TokenLine], context: &mut BuildingContext) -> (r: Result<
    SuccessStep<Block>,
    ParserError,
>)
    requires
        old(context).ok(),
    ensures
        final(context).ok(),
        grows(*old(context), *final(context)),
        r matches Ok(step) ==> 2 <= step.change <= lines@.len() && block_ok(
            final(context).shape(),
            final(context).fid(),
            step.val@,
        ) && tokens_view(lines@[0].elements@) == seq![TokenV::Symbol(Symbol::BraceOpen)]
            && tokens_view(lines@[step.change - 1].elements@) == seq![
            TokenV::Symbol(Symbol::BraceClose),
        ],
        lines@.len() == 0 || tokens_view(lines@[0].elements@) != seq![
            TokenV::Symbol(Symbol::BraceOpen),
        ] ==> r is Err,
        match block_lines(scope_of(*old(context).cur_function, *old(context).cur_tree), lines@) {
            None => r is Err,
            Some(n) => r matches Ok(step) && step.change == n,
        },
        r matches Ok(step) ==> block_read(
            *old(context).cur_function,
            *old(context).cur_tree,
            lines@,
            step.val@,
        ),
    decreases lines@.len(),
{
    let ghost f0 = *context.cur_function;
    let ghost t0 = *context.cur_tree;
    if lines.len() == 0 {
        return Err(LinedError::general("Expected a block, found the end of the code".to_owned()));
    }
    match_upgrade_symbol_only(&lines[0], Symbol::BraceOpen)?;
    let mut statements: Block = Vec::new();
    let mut i: usize = 1;
    assert forall|x: Seq<Statement>|
        #[trigger] block_read_from(f0, t0, lines@, 1, x) implies block_read(f0, t0, lines@, statements@ + x) by {
        assert(statements@ + x =~= x);
    };
    while i < lines.len()
        invariant
            1 <= i <= lines@.len(),
            tokens_view(lines@[0].elements@) == seq![TokenV::Symbol(Symbol::BraceOpen)],
            context.ok(),
            grows(*old(context), *context),
            block_ok(context.shape(), context.fid(), statements@),
            f0 == *old(context).cur_function,
            t0 == *old(context).cur_tree,
            block_lines(scope_of(f0, t0), lines@) == block_from(scope_of(f0, t0), lines@, i as int),
            forall|x: Seq<Statement>|
                #[trigger] block_read_from(f0, t0, lines@, i as int, x) ==> block_read(
                    f0,
                    t0,
                    lines@,
                    statements@ + x,
                ),
        decreases lines@.len() - i,
    {
        let line = &lines[i];
        if symbol_only(line, Symbol::BraceClose) {
            proof {
                assert(block_read_from(f0, t0, lines@, i as int, Seq::empty()));
                assert(statements@ + Seq::<Statement>::empty() =~= statements@);
            }
            return Ok(SuccessStep::new(statements, i + 1));
        }
        assert(lines@.subrange(i as int, lines@.len() as int)[0] == lines@[i as int]);
        let ghost before = *context;
        let simple_maybe = match parse_simple(line.elements.as_slice(), context) {
            Ok(s) => s,
            Err(e) => {
                return Err(LinedError::upgrade(e, line));
            },
        };
        proof {
            lemma_grows_shape(before, *context);
            lemma_block_mono(before.shape(), context.shape(), context.fid(), statements@);
        }
        if let Some(simple) = simple_maybe {
            let ghost old_st = statements@;
            statements.push(simple);
            proof {
                assert forall|x: Seq<Statement>|
                    #[trigger] block_read_from(f0, t0, lines@, i + 1, x) implies block_read(
                    f0,
                    t0,
                    lines@,
                    statements@ + x,
                ) by {
                    let y = seq![simple] + x;
                    assert(y.drop_first() =~= x);
                    assert(block_read_from(f0, t0, lines@, i as int, y));
                    assert(old_st + y =~= statements@ + x);
                };
            }
            i += 1;
            continue;
        }
        let ghost before = *context;
        let adv_maybe = parse_advanced(&lines[i..lines.len()], context)?;
        proof {
            lemma_grows_shape(before, *context);
            lemma_block_mono(before.shape(), context.shape(), context.fid(), statements@);
        }
        if let Some(adv) = adv_maybe {
            let change = adv.change;
            let ghost old_st = statements@;
            let ghost sv = adv.val;
            statements.push(adv.val);
            proof {
                assert forall|x: Seq<Statement>|
                    #[trigger] block_read_from(f0, t0, lines@, i + change, x) implies block_read(
                    f0,
                    t0,
                    lines@,
                    statements@ + x,
                ) by {
                    let y = seq![sv] + x;
                    assert(y.drop_first() =~= x);
                    assert(block_read_from(f0, t0, lines@, i as int, y));
                    assert(old_st + y =~= statements@ + x);
                };
            }
            i += change;
            continue;
        }
        return Err(LinedError::upgrade("Expected correct statement".to_owned(), line));
    }
    assert(block_from(scope_of(f0, t0), lines@, i as int) is None);
    Err(LinedError::upgrade("Block was not closed".to_owned(), &lines[0]))
}

/// A statement that starts with `.`: `.ret(..)`, `.flag(..)`, or `.if(..)`
/// with its blocks and its `.else` or `.noelse` line.
fn parse_advanced(lines: &[TokenLine], context: &mut BuildingContext) -> (r: Result<
    Option<SuccessStep<Statement>>,
    ParserError,
>)
    requires
        old(context).ok(),
    ensures
        final(context).ok(),
        grows(*old(context), *final(context)),
        r matches Ok(Some(step)) ==> 1 <= step.change <= lines@.len() && stmt_ok(
            final(context).shape(),
            final(context).fid(),
            step.val,
        ) && advanced_shape(tokens_view(lines@[0].elements@), step.val),
        match advanced_lines(scope_of(*old(context).cur_function, *old(context).cur_tree), lines@) {
            None => r is Err,
            Some(None) => r matches Ok(None),
            Some(Some(n)) => r matches Ok(Some(step)) && step.change == n,
        },
        r matches Ok(Some(step)) ==> adv_read(
            *old(context).cur_function,
            *old(context).cur_tree,
            lines@,
            step.val,
        ),
        r matches Ok(Some(step)) ==> (step.val matches Statement::If(i) ==> args_match(
            *old(context),
            tokens_view(lines@[0].elements@).subrange(4, lines@[0].elements@.len() as int),
            seq![i.a, i.b],
        ) && (i.if_false is Some <==> tokens_view(lines@[1 + block_lines(
            scope_of(*old(context).cur_function, *old(context).cur_tree),
            lines@.subrange(1, lines@.len() as int),
        )->Some_0].elements@)[1] == TokenV::Label("else"@))),
        r matches Ok(Some(step)) ==> (step.val matches Statement::Ret(rt) ==> (rt.ret_val is None
            <==> args_count(
            tokens_view(lines@[0].elements@).subrange(3, lines@[0].elements@.len() - 1),
        ) == 0)),
    decreases lines@.len(),
{
    let ghost f0 = *context.cur_function;
    let ghost t0 = *context.cur_tree;
    if lines.len() == 0 {
        return Ok(None);
    }
    let first = &lines[0];
    let el = first.elements.as_slice();
    let pattern = vec![
        (TokenReq::m_symbol(Symbol::Dot), IndexReq::Next),
        (TokenReq::Label, IndexReq::Next),
        (TokenReq::m_symbol(Symbol::ParenthesisOpen), IndexReq::Next),
        (TokenReq::m_symbol(Symbol::ParenthesisClose), IndexReq::End(0)),
    ];
    proof {
        let tv = tokens_view(el@);
        if dot_shape(tv) {
            reveal_with_fuel(pattern_failure, 5);
            reveal_with_fuel(first_failing, 2);
            assert(pattern_matches(pattern@, tv));
        }
    }
    if !match_exact_cond(&pattern, el) {
        return Ok(None);
    }
    proof {
        let tv = tokens_view(el@);
        lemma_pattern_prefix(pattern@, tv, 3);
        lemma_pattern_last(pattern@, tv, 3, 3);
        assert(!(pattern@[2].0 is NoToken));
        assert(req_ok(pattern@[1].0, tv[1]));
        assert(req_ok(pattern@[2].0, tv[2]));
        assert(req_ok(pattern@[3].0, tv[tv.len() - 1]));
        assert(req_ok(pattern@[0].0, tv[0]));
        assert(el@.len() >= 4);
    }
    let len = el.len();
    let name = match &el[1] {
        Token::Label(name) => name,
        _ => {
            return Ok(None);
        },
    };
    let ret_name = "ret".to_owned();
    let flag_name = "flag".to_owned();
    let if_name = "if".to_owned();
    proof {
        reveal_strlit("ret");
        reveal_strlit("flag");
        reveal_strlit("if");
        let tv = tokens_view(el@);
        assert(tokens_view(el@.subrange(3, len - 1)) =~= tv.subrange(3, len - 1));
        assert(tokens_view(el@.subrange(4, len as int)) =~= tv.subrange(4, len as int));
        assert(lines@.subrange(1, lines@.len() as int) =~= lines@.subrange(1, lines@.len() as int));
    }
    if *name == ret_name {
        let args = match parse_call_arguments(&el[3..len - 1], context) {
            Ok(a) => a,
            Err(e) => {
                return Err(LinedError::upgrade(e, first));
            },
        };
        if args.len() > 1 {
            return Err(
                LinedError::upgrade("Return accepts one or 0 arguments".to_owned(), first),
            );
        }
        let ret_val = if args.len() == 1 {
            Some(args[0].duplicate())
        } else {
            None
        };
        proof {
            if args@.len() == 1 {
                assert(args@ =~= seq![args@[0]]);
            } else {
                assert(args@ =~= Seq::<ArgumentCallArg>::empty());
            }
        }
        return Ok(Some(SuccessStep::new(Statement::Ret(Ret { ret_val, fnc: context.cur_function.id }), 1)));
    }
    if *name == flag_name {
        let arg = match el[3].to_label() {
            Some(a) => a,
            None => {
                return Err(LinedError::upgrade("flag argument must be label".to_owned(), first));
            },
        };
        if len != 5 {
            return Err(
                LinedError::upgrade("Flag accepts exactly one arguments".to_owned(), first),
            );
        }
        return Ok(Some(SuccessStep::new(Statement::Flag(Flag { label: arg }), 1)));
    }
    if *name == if_name {
        let cond = match el[3].to_cond() {
            Some(c) => c,
            None => {
                return Err(
                    LinedError::upgrade("If must start with condition kind".to_owned(), first),
                );
            },
        };
        let arguments = match parse_call_arguments(&el[4..len], context) {
            Ok(a) => a,
            Err(e) => {
                return Err(LinedError::upgrade(e, first));
            },
        };
        if arguments.len() != 2 {
            return Err(
                LinedError::upgrade(
                    "If takes a condition kind and exactly two arguments".to_owned(),
                    first,
                ),
            );
        }
        let a = arguments[0].duplicate();
        let b = arguments[1].duplicate();
        assert(arguments@ =~= seq![a, b]);
        let ghost c1 = *context;
        let block_if = parse_internal(&lines[1..lines.len()], context)?;
        let mut i: usize = 1 + block_if.change;
        let block_if = block_if.val;
        let ghost c2 = *context;
        if i >= lines.len() {
            return Err(LinedError::upgrade("Expected .else or .noelse after the block".to_owned(), first));
        }
        let trailer = vec![
            (TokenReq::m_symbol(Symbol::Dot), IndexReq::Next),
            (TokenReq::Either(Token::m_label("else"), Token::m_label("noelse")), IndexReq::Next),
            (TokenReq::NoToken, IndexReq::Next),
        ];
        proof {
            let tt = tokens_view(lines@[i as int].elements@);
            reveal_strlit("else");
            reveal_strlit("noelse");
            if trailer_ok(tt) {
                reveal_with_fuel(pattern_failure, 4);
                reveal_with_fuel(first_failing, 2);
                assert(pattern_matches(trailer@, tt));
            }
        }
        match_exact_w_upgrade(&trailer, &lines[i])?;
        proof {
            let tt = tokens_view(lines@[i as int].elements@);
            lemma_pattern_prefix(trailer@, tt, 3);
            assert(!(trailer@[1].0 is NoToken));
            assert(req_ok(trailer@[0].0, tt[0]));
            assert(req_ok(trailer@[1].0, tt[1]));
            if tt.len() > 2 {
                assert(req_ok(trailer@[2].0, tt[2]));
            }
            assert(trailer_ok(tt));
        }
        let is_else_included = lines[i].elements[1].is_exact_label("else");
        i += 1;
        let mut block_else: Option<Block> = None;
        if is_else_included {
            assert(lines@.subrange(i as int, lines@.len() as int) =~= lines@.subrange(i as int, lines@.len() as int));
            let step = parse_internal(&lines[i..lines.len()], context)?;
            i += step.change;
            block_else = Some(step.val);
        }
        proof {
            lemma_grows_shape(c1, c2);
            lemma_grows_shape(c2, *context);
            lemma_grows_shape(c1, *context);
            lemma_block_mono(c2.shape(), context.shape(), context.fid(), block_if@);
        }
        return Ok(
            Some(
                SuccessStep::new(
                    Statement::If(If { a, b, if_true: block_if, if_false: block_else, cond }),
                    i,
                ),
            ),
        );
    }
    Ok(None)
}

} // verus!

verus! {

/// The tokens of a line `name = number`.
pub open spec fn is_decl_line(t: Seq<TokenV>) -> bool {
    t.len() == 3 && t[0] is Label && t[1] == TokenV::Symbol(Symbol::Equal) && t[2] is Number
}

/// Line `c` holds only `*`, and each line before it is a declaration.
pub open spec fn declarations_closed_at(lines: Seq<TokenLine>, c: int) -> bool {
    &&& 0 <= c < lines.len()
    &&& tokens_view(lines[c].elements@) == seq![TokenV::Symbol(Symbol::Asterix)]
    &&& forall|k: int| 0 <= k < c ==> is_decl_line(tokens_view(#[trigger] lines[k].elements@))
}

/// A line `name = number`.
pub fn parse_variable_decl(tokens: &[Token]) -> (r: Result<VariableDeclaration, String>)
    ensures
        r is Ok == is_decl_line(tokens_view(tokens@)),
        r matches Ok(d) ==> tokens_view(tokens@) == seq![
            TokenV::Label(d.name@),
            TokenV::Symbol(Symbol::Equal),
            TokenV::Number(d.default_value),
        ],
{
    let pattern = vec![
        (TokenReq::Label, IndexReq::Next),
        (TokenReq::m_symbol(Symbol::Equal), IndexReq::Next),
        (TokenReq::Number, IndexReq::Next),
        (TokenReq::NoToken, IndexReq::Next),
    ];
    let matched = match_exact(&pattern, tokens);
    proof {
        let tv = tokens_view(tokens@);
        if is_decl_line(tv) {
            reveal_with_fuel(pattern_failure, 5);
            reveal_with_fuel(first_failing, 2);
            assert(pattern_matches(pattern@, tv));
        }
    }
    matched?;
    proof {
        let tv = tokens_view(tokens@);
        lemma_pattern_prefix(pattern@, tv, 4);
        assert(!(pattern@[2].0 is NoToken));
        assert(req_ok(pattern@[0].0, tv[0]));
        assert(req_ok(pattern@[1].0, tv[1]));
        assert(req_ok(pattern@[2].0, tv[2]));
        if tv.len() > 3 {
            assert(req_ok(pattern@[3].0, tv[3]));
        }
        assert(tv.len() == 3);
    }
    match (&tokens[0], &tokens[2]) {
        (Token::Label(name), Token::Number(value)) => {
            let d = VariableDeclaration::new(name.clone(), *value);
            assert(tokens_view(tokens@) =~= seq![
                TokenV::Label(d.name@),
                TokenV::Symbol(Symbol::Equal),
                TokenV::Number(d.default_value),
            ]);
            Ok(d)
        },
        _ => Err("Expected a declaration name = number".to_owned()),
    }
}

/// Declarations up to a line that holds only `*`; the step includes that line.
pub fn parse_variables(token_lines: &[TokenLine]) -> (r: Result<
    SuccessStep<Vec<VariableDeclaration>>,
    ParserError,
>)
    ensures
        r is Ok == exists|c: int| declarations_closed_at(token_lines@, c),
        (forall|k: int| 0 <= k < token_lines@.len() ==> is_decl_line(tokens_view(#[trigger] token_lines@[k].elements@)))
            ==> (r matches Err(e) && e.content@ == "Variable declaration not closed"@),
        r matches Ok(step) ==> {
            &&& 1 <= step.change <= token_lines@.len()
            &&& declarations_closed_at(token_lines@, step.change - 1)
            &&& step.val@.len() == step.change - 1
            &&& forall|k: int|
                0 <= k < step.val@.len() ==> tokens_view(token_lines@[k].elements@) == seq![
                    TokenV::Label((#[trigger] step.val@[k]).name@),
                    TokenV::Symbol(Symbol::Equal),
                    TokenV::Number(step.val@[k].default_value),
                ]
        },
{
    let mut all: Vec<VariableDeclaration> = Vec::new();
    let mut i: usize = 0;
    while i < token_lines.len()
        invariant
            i <= token_lines@.len(),
            all@.len() == i,
            forall|k: int|
                0 <= k < i ==> is_decl_line(tokens_view(token_lines@[k].elements@))
                    && tokens_view(token_lines@[k].elements@) != seq![TokenV::Symbol(Symbol::Asterix)],
            forall|k: int|
                0 <= k < i ==> tokens_view(token_lines@[k].elements@) == seq![
                    TokenV::Label((#[trigger] all@[k]).name@),
                    TokenV::Symbol(Symbol::Equal),
                    TokenV::Number(all@[k].default_value),
                ],
        decreases token_lines@.len() - i,
    {
        let token_line = &token_lines[i];
        if symbol_only(token_line, Symbol::Asterix) {
            assert(declarations_closed_at(token_lines@, i as int));
            return Ok(SuccessStep::new(all, i + 1));
        }
        let decl = match parse_variable_decl(token_line.elements.as_slice()) {
            Ok(d) => d,
            Err(e) => {
                proof {
                    assert forall|c: int| !declarations_closed_at(token_lines@, c) by {
                        if declarations_closed_at(token_lines@, c) && c != i {
                            if c < i {
                                assert(tokens_view(token_lines@[c].elements@) != seq![
                                    TokenV::Symbol(Symbol::Asterix),
                                ]);
                            } else {
                                assert(is_decl_line(tokens_view(token_lines@[i as int].elements@)));
                            }
                        }
                    };
                }
                return Err(LinedError::upgrade(e, token_line));
            },
        };
        proof {
            assert(tokens_view(token_line.elements@)[0] is Label);
        }
        all.push(decl);
        i += 1;
    }
    let msg = "Variable declaration not closed".to_owned();
    if token_lines.len() > 0 {
        Err(LinedError::upgrade(msg, &token_lines[token_lines.len() - 1]))
    } else {
        Err(LinedError::upgrade(msg, &TokenLine::none()))
    }
}

/// Appends the declared variables; the id of each is its position in `dest`.
pub fn push_variables(
    vars: Vec<VariableDeclaration>,
    dest: &mut Vec<Variable>,
    kind: VariableType,
    readonly: bool,
)
    ensures
        final(dest)@.len() == old(dest)@.len() + vars@.len(),
        forall|k: int| 0 <= k < old(dest)@.len() ==> #[trigger] final(dest)@[k] == old(dest)@[k],
        forall|k: int|
            old(dest)@.len() <= k < final(dest)@.len() ==> {
                let v = #[trigger] final(dest)@[k];
                let d = vars@[k - old(dest)@.len()];
                &&& v.name@ == d.name@
                &&& v.default_value == d.default_value
                &&& v.id.raw == k
                &&& v.id.kind == kind
                &&& v.read_only == readonly
            },
{
    let mut k: usize = 0;
    while k < vars.len()
        invariant
            k <= vars@.len(),
            dest@.len() == old(dest)@.len() + k,
            forall|m: int| 0 <= m < old(dest)@.len() ==> #[trigger] dest@[m] == old(dest)@[m],
            forall|m: int|
                old(dest)@.len() <= m < dest@.len() ==> {
                    let v = #[trigger] dest@[m];
                    let d = vars@[m - old(dest)@.len()];
                    &&& v.name@ == d.name@
                    &&& v.default_value == d.default_value
                    &&& v.id.raw == m
                    &&& v.id.kind == kind
                    &&& v.read_only == readonly
                },
        decreases vars@.len() - k,
    {
        let var = &vars[k];
        let i = dest.len();
        dest.push(
            Variable {
                name: var.name.clone(),
                default_value: var.default_value,
                id: VariableId::new(i, kind),
                read_only: readonly,
            },
        );
        k += 1;
    }
}

/// Two `*` lines that close the same declarations are the same line.
pub proof fn lemma_closer_unique(l: Seq<TokenLine>, c1: int, c2: int)
    requires
        declarations_closed_at(l, c1),
        declarations_closed_at(l, c2),
    ensures
        c1 == c2,
{
    if c1 < c2 {
        assert(is_decl_line(tokens_view(l[c1].elements@)));
    } else if c2 < c1 {
        assert(is_decl_line(tokens_view(l[c2].elements@)));
    }
}

proof fn lemma_first_failing_all(r: TokenReq, t: Seq<TokenV>, a: int, e: int)
    requires
        forall|k: int| a <= k < e ==> req_ok(r, #[trigger] t[k]),
    ensures
        first_failing(r, t, a, e) is None,
    decreases e - a,
{
    if a < e {
        lemma_first_failing_all(r, t, a + 1, e);
    }
}

/// A header line: `function` or `stack_function`, then the name and the
/// arguments, all labels.
pub open spec fn header_ok(t: Seq<TokenV>) -> bool {
    &&& t.len() >= 2
    &&& (t[0] == TokenV::Label("function"@) || t[0] == TokenV::Label("stack_function"@))
    &&& forall|k: int| 1 <= k < t.len() ==> (#[trigger] t[k]) is Label
}

/// The lines up to a `*` line are all declarations.
pub open spec fn declarations_close(l: Seq<TokenLine>) -> bool {
    exists|c: int| declarations_closed_at(l, c)
}

/// The position of the `*` line that closes the declarations.
pub open spec fn closer_of(l: Seq<TokenLine>) -> int {
    choose|c: int| declarations_closed_at(l, c)
}

/// The names declared by the first `c` lines.
pub open spec fn decl_names(l: Seq<TokenLine>, c: int) -> Seq<Seq<char>> {
    l.subrange(0, c).map_values(|line: TokenLine| tokens_view(line.elements@)[0]->Label_0)
}

/// The names of the tokens from position 2 on: the arguments of a header.
pub open spec fn arg_names(t: Seq<TokenV>) -> Seq<Seq<char>> {
    t.subrange(2, t.len() as int).map_values(|x: TokenV| x->Label_0)
}

/// The function that the lines start with, read against the functions so far
/// and the globals `g`: its shape and the number of lines it takes; `None`
/// where it is malformed, takes a name already used, or its body does not
/// parse.
pub open spec fn fn_step(l: Seq<TokenLine>, g: Seq<Seq<char>>, fns: Seq<FnShape>) -> Option<
    (FnShape, int),
> {
    if l.len() == 0 {
        None
    } else {
        let t = tokens_view(l[0].elements@);
        let rest = l.subrange(1, l.len() as int);
        if !header_ok(t) || !declarations_close(rest) {
            None
        } else {
            let c = closer_of(rest);
            let name = t[1]->Label_0;
            if exists|k: int| 0 <= k < fns.len() && (#[trigger] fns[k]).name == name {
                None
            } else {
                let args = arg_names(t);
                let sh = FnShape {
                    name,
                    args: args.len(),
                    n_locals: args.len() + c as nat,
                    is_stack: t[0] == TokenV::Label("stack_function"@),
                };
                let sc = Scope {
                    locals: args + decl_names(rest, c),
                    globals: g,
                    fns: fns.push(sh),
                    name,
                    is_stack: sh.is_stack,
                };
                let d = 2 + c;
                match block_lines(sc, l.subrange(d, l.len() as int)) {
                    None => None,
                    Some(n) => Some((sh, d + n)),
                }
            }
        }
    }
}

/// The functions that the lines hold, one after the other.
pub open spec fn fns_from(l: Seq<TokenLine>, g: Seq<Seq<char>>, fns: Seq<FnShape>) -> Option<
    Seq<FnShape>,
>
    decreases l.len(),
{
    if l.len() == 0 {
        Some(fns)
    } else {
        match fn_step(l, g, fns) {
            Some((sh, n)) => if 1 <= n <= l.len() {
                fns_from(l.subrange(n, l.len() as int), g, fns.push(sh))
            } else {
                None
            },
            None => None,
        }
    }
}

/// The lines from the body of each function on, in the order of `fns_from`.
pub open spec fn fns_bodies(l: Seq<TokenLine>, g: Seq<Seq<char>>, fns: Seq<FnShape>) -> Seq<
    Seq<TokenLine>,
>
    decreases l.len(),
{
    if l.len() == 0 {
        Seq::empty()
    } else {
        match fn_step(l, g, fns) {
            Some((sh, n)) => if 1 <= n <= l.len() {
                seq![l.subrange(2 + closer_of(l.subrange(1, l.len() as int)), l.len() as int)]
                    + fns_bodies(l.subrange(n, l.len() as int), g, fns.push(sh))
            } else {
                Seq::empty()
            },
            None => Seq::empty(),
        }
    }
}

/// The lines from the body of each function of a program on.
pub open spec fn program_bodies(l: Seq<TokenLine>) -> Seq<Seq<TokenLine>> {
    if !declarations_close(l) {
        Seq::empty()
    } else {
        let c = closer_of(l);
        fns_bodies(l.subrange(c + 1, l.len() as int), reserved_names() + decl_names(l, c), Seq::empty())
    }
}

/// No label of the lines holds a line feed.
pub open spec fn labels_plain(l: Seq<TokenLine>) -> bool {
    forall|i: int, j: int|
        0 <= i < l.len() && 0 <= j < l[i].elements@.len() ==> ((#[trigger] l[i].elements@[j])@ matches TokenV::Label(
            x,
        ) ==> !x.contains('\n'))
}

pub open spec fn reserved_names() -> Seq<Seq<char>> {
    seq![temp_name(), return_name(), return_saver_name()]
}

/// The functions of a program: globals up to `*`, then functions.
pub open spec fn program_fns(l: Seq<TokenLine>) -> Option<Seq<FnShape>> {
    if !declarations_close(l) {
        None
    } else {
        let c = closer_of(l);
        fns_from(l.subrange(c + 1, l.len() as int), reserved_names() + decl_names(l, c), Seq::empty())
    }
}

/// The first function of this name has this many arguments and this stack status.
pub open spec fn fn_in(fns: Seq<FnShape>, name: Seq<char>, args: nat, is_stack: bool) -> bool {
    first_fn_in(fns, name) matches Some(k) && fns[k].args == args && fns[k].is_stack == is_stack
}

/// The first function of this name takes this many arguments and is no stack function.
pub open spec fn plain_fn_in(fns: Seq<FnShape>, name: Seq<char>, args: nat) -> bool {
    fn_in(fns, name, args, false)
}

/// What a program needs of its functions: `main` without arguments, and the
/// stack helpers where a stack function exists.
pub open spec fn fns_complete(fns: Seq<FnShape>) -> bool {
    &&& plain_fn_in(fns, main_name(), 0)
    &&& (exists|k: int| 0 <= k < fns.len() && (#[trigger] fns[k]).is_stack) ==> {
        &&& plain_fn_in(fns, push_name(), 1)
        &&& plain_fn_in(fns, pop_name(), 0)
        &&& plain_fn_in(fns, stack_return_name(), 1)
    }
}

/// The lines hold a program that parses.
pub open spec fn program_ok(l: Seq<TokenLine>) -> bool {
    program_fns(l) matches Some(fns) && fns_complete(fns)
}

/// A header line `function name args..` or `stack_function name args..`, and
/// the declarations of locals up to `*`.
pub fn parse_fnc_declaration(lines: &[TokenLine]) -> (r: Result<
    SuccessStep<FunctionDeclaration>,
    ParserError,
>)
    requires
        lines@.len() >= 1,
    ensures
        r is Ok <==> header_ok(tokens_view(lines@[0].elements@)) && declarations_close(
            lines@.subrange(1, lines@.len() as int),
        ),
        r matches Ok(step) ==> step.change == 2 + closer_of(lines@.subrange(1, lines@.len() as int)),
        r matches Ok(step) ==> {
            let t = tokens_view(lines@[0].elements@);
            &&& 2 <= step.change <= lines@.len()
            &&& t.len() == 2 + step.val.arguments@.len()
            &&& t[1] == TokenV::Label(step.val.name@)
            &&& forall|k: int|
                0 <= k < step.val.arguments@.len() ==> t[2 + k] == TokenV::Label(
                    (#[trigger] step.val.arguments@[k])@,
                )
            &&& step.val.is_stack == (t[0] == TokenV::Label("stack_function"@))
            &&& declarations_closed_at(lines@.subrange(1, lines@.len() as int), step.change - 2)
            &&& step.val.locals@.len() == step.change - 2
            &&& forall|k: int|
                0 <= k < step.val.locals@.len() ==> tokens_view(lines@[1 + k].elements@) == seq![
                    TokenV::Label((#[trigger] step.val.locals@[k]).name@),
                    TokenV::Symbol(Symbol::Equal),
                    TokenV::Number(step.val.locals@[k].default_value),
                ]
        },
{
    let first = &lines[0];
    let el = first.elements.as_slice();
    let pattern = vec![
        (TokenReq::Either(Token::m_label("function"), Token::m_label("stack_function")), IndexReq::Next),
        (TokenReq::Label, IndexReq::Next),
        (TokenReq::Label, IndexReq::Between(2, el.len())),
    ];
    proof {
        let t = tokens_view(el@);
        reveal_strlit("function");
        reveal_strlit("stack_function");
        if header_ok(t) {
            lemma_first_failing_all(TokenReq::Label, t, 2, t.len() as int);
            reveal_with_fuel(pattern_failure, 4);
            reveal_with_fuel(first_failing, 2);
            assert(pattern_matches(pattern@, t));
        }
    }
    match_exact_w_upgrade(&pattern, first)?;
    proof {
        lemma_pattern_prefix(pattern@, tokens_view(el@), 2);
        assert(!(pattern@[1].0 is NoToken));
        assert(req_ok(pattern@[0].0, tokens_view(el@)[0]));
        assert(req_ok(pattern@[1].0, tokens_view(el@)[1]));
    }
    let is_stack = el[0].is_exact_label("stack_function");
    let fnc_name = match el[1].to_label() {
        Some(n) => n,
        None => {
            return Err(LinedError::upgrade("Expected a function name".to_owned(), first));
        },
    };
    let mut args: Vec<String> = Vec::new();
    let mut k: usize = 2;
    while k < el.len()
        invariant
            2 <= k <= el@.len(),
            lines@.len() >= 1,
            el@ == lines@[0].elements@,
            args@.len() == k - 2,
            forall|m: int|
                0 <= m < args@.len() ==> tokens_view(el@)[2 + m] == TokenV::Label(
                    (#[trigger] args@[m])@,
                ),
        decreases el@.len() - k,
    {
        match el[k].to_label() {
            Some(a) => args.push(a),
            None => {
                assert(!(tokens_view(el@)[k as int] is Label));
                return Err(LinedError::upgrade("Expected an argument name".to_owned(), first));
            },
        }
        k += 1;
    }
    let rest = &lines[1..lines.len()];
    assert(header_ok(tokens_view(el@))) by {
        assert forall|m: int| 1 <= m < tokens_view(el@).len() implies (#[trigger] tokens_view(el@)[m]) is Label by {
            if m >= 2 {
                assert(tokens_view(el@)[2 + (m - 2)] == TokenV::Label(args@[m - 2]@));
            }
        };
    };
    let locals = parse_variables(rest)?;
    proof {
        lemma_closer_unique(rest@, locals.change - 1, closer_of(rest@));
    }
    proof {
        assert forall|m: int| 0 <= m < locals.val@.len() implies tokens_view(
            lines@[1 + m].elements@,
        ) == seq![
            TokenV::Label((#[trigger] locals.val@[m]).name@),
            TokenV::Symbol(Symbol::Equal),
            TokenV::Number(locals.val@[m].default_value),
        ] by {
            assert(rest@[m] == lines@[1 + m]);
        };
    }
    let change = 1 + locals.change;
    Ok(
        SuccessStep::new(
            FunctionDeclaration { name: fnc_name, arguments: args, locals: locals.val, is_stack },
            change,
        ),
    )
}

} // verus!

verus! {

impl ProgramTree {
    /// What holds of a tree at every step of its construction.
    pub open spec fn building_ok(&self) -> bool {
        &&& self.ids_ok()
        &&& self.reserved_ok()
        &&& sorted_unique(self.constants_used@)
        &&& self.local_defaults_ok()
        &&& self.bodies_ok()
        &&& self.names_unique()
        &&& self.features_ok()
    }

    /// Appends a function without code: its arguments become read-only locals
    /// (default -21), followed by its declared locals.
    fn push_fnc(&mut self, decl: FunctionDeclaration) -> (r: FunctionId)
        requires
            old(self).building_ok(),
            forall|j: int|
                0 <= j < old(self).functions@.len() ==> old(self).functions@[j].name@
                    != decl.name@,
        ensures
            r.0 == old(self).functions@.len(),
            final(self).functions@.len() == old(self).functions@.len() + 1,
            forall|j: int|
                0 <= j < old(self).functions@.len() ==> #[trigger] final(self).functions@[j]
                    == old(self).functions@[j],
            final(self).functions@[r.0 as int].name@ == decl.name@,
            final(self).functions@[r.0 as int].args == decl.arguments@.len(),
            final(self).functions@[r.0 as int].is_stack == decl.is_stack,
            final(self).functions@[r.0 as int].content is None,
            final(self).functions@[r.0 as int].locals@.len() == decl.arguments@.len()
                + decl.locals@.len(),
            forall|j: int|
                0 <= j < decl.locals@.len() ==> #[trigger] final(self).functions@[r.0 as int].locals@[decl.arguments@.len()
                    + j].default_value == decl.locals@[j].default_value,
            final(self).globals == old(self).globals,
            final(self).constants_used == old(self).constants_used,
            final(self).ids_ok(),
            final(self).names_unique(),
            final(self).features_ok(),
            var_names(final(self).functions@[r.0 as int].locals@) == decl.arguments@.map_values(
                |a: String| a@,
            ) + decl.locals@.map_values(|d: VariableDeclaration| d.name@),
    {
        let id = FunctionId(self.functions.len());
        let mut arg_decls: Vec<VariableDeclaration> = Vec::new();
        let mut k: usize = 0;
        while k < decl.arguments.len()
            invariant
                k <= decl.arguments@.len(),
                arg_decls@.len() == k,
                forall|m: int| 0 <= m < k ==> (#[trigger] arg_decls@[m]).name@ == decl.arguments@[m]@,
            decreases decl.arguments@.len() - k,
        {
            arg_decls.push(VariableDeclaration::new(decl.arguments[k].clone(), -21));
            k += 1;
        }
        let mut locals: Vec<Variable> = Vec::new();
        let ghost ad = arg_decls@;
        let ghost dl = decl.locals@;
        push_variables(arg_decls, &mut locals, VariableType::Local(id), true);
        let n_args = locals.len();
        push_variables(decl.locals, &mut locals, VariableType::Local(id), false);
        assert(var_names(locals@) =~= decl.arguments@.map_values(|a: String| a@) + dl.map_values(
            |d: VariableDeclaration| d.name@,
        )) by {
            assert forall|m: int| 0 <= m < locals@.len() implies var_names(locals@)[m] == (
            decl.arguments@.map_values(|a: String| a@) + dl.map_values(
                |d: VariableDeclaration| d.name@,
            ))[m] by {
                if m < n_args {
                    assert(ad[m].name@ == decl.arguments@[m]@);
                }
            };
        };
        let fnc = Function {
            id,
            name: decl.name,
            content: None,
            locals,
            args: n_args,
            is_stack: decl.is_stack,
        };
        if fnc.is_stack {
            let ghost b = self.features.bits;
            self.features.insert(STACK_FUNCTIONS);
            assert((b | 1u32) & 1u32 == 1u32) by (bit_vector);
        }
        let ghost old_fns = self.functions@;
        self.functions.push(fnc);
        proof {
            assert(self.functions@[id.0 as int] == fnc);
            assert(function_ids_ok(self.functions@, id.0 as int));
            assert forall|f: int| 0 <= f < self.functions@.len() implies function_ids_ok(
                self.functions@,
                f,
            ) by {
                if f < old_fns.len() {
                    assert(self.functions@[f] == old_fns[f]);
                    assert(function_ids_ok(old_fns, f));
                }
            };
            if fnc.is_stack {
                assert(self.functions@[id.0 as int].is_stack);
                assert(self.uses_stack());
            } else {
                if old(self).uses_stack() {
                    let f = choose|f: int|
                        0 <= f < old_fns.len() && (#[trigger] old_fns[f]).is_stack;
                    assert(self.functions@[f] == old_fns[f]);
                    assert(self.uses_stack());
                }
                assert(self.uses_stack() ==> exists|f: int|
                    0 <= f < old_fns.len() && (#[trigger] old_fns[f]).is_stack) by {
                    if self.uses_stack() {
                        let f = choose|f: int|
                            0 <= f < self.functions@.len() && (#[trigger] self.functions@[f]).is_stack;
                        assert(old_fns[f] == self.functions@[f]);
                    }
                };
            }
        }
        id
    }
}

/// `b` keeps every function of `a` as it was, adds functions without code,
/// and adds constants.
pub proof fn lemma_bodies_mono(a: &ProgramTree, b: &ProgramTree)
    requires
        a.bodies_ok(),
        shape_le(a.shape(), b.shape()),
        a.functions@.len() <= b.functions@.len(),
        forall|f: int|
            0 <= f < a.functions@.len() ==> (#[trigger] b.functions@[f]).content == a.functions@[f].content,
        forall|f: int|
            a.functions@.len() <= f < b.functions@.len() ==> (#[trigger] b.functions@[f]).content is None,
    ensures
        b.bodies_ok(),
{
    assert forall|f: int| 0 <= f < b.functions@.len() implies ((#[trigger] b.functions@[f]).content matches Some(
        bl,
    ) ==> block_ok(b.shape(), f, bl@)) by {
        if f < a.functions@.len() {
            assert(a.functions@[f].content == b.functions@[f].content);
            if let Some(bl) = a.functions@[f].content {
                lemma_block_mono(a.shape(), b.shape(), f, bl@);
            }
        }
    };
}

} // verus!

verus! {

/// Parses the next function and adds it to the tree; `Ok(None)` where no
/// lines are left.
pub fn push_next_function(tokens: &[TokenLine], tree: &mut ProgramTree) -> (r: Result<
    Option<SuccessStep<()>>,
    ParserError,
>)
    requires
        old(tree).building_ok(),
    ensures
        final(tree).building_ok(),
        final(tree).globals == old(tree).globals,
        r matches Ok(None) <==> tokens@.len() == 0,
        r matches Ok(None) ==> *final(tree) == *old(tree),
        tokens@.len() > 0 && header_ok(tokens_view(tokens@[0].elements@)) && declarations_close(
            tokens@.subrange(1, tokens@.len() as int),
        ) && (exists|k: int|
            0 <= k < old(tree).functions@.len() && (#[trigger] old(tree).functions@[k]).name@
                == tokens_view(tokens@[0].elements@)[1]->Label_0) ==> (r matches Err(e) && e.line
            == tokens@[0].line_number && e.content@ == "there's a function with the same name already"@
            && *final(tree) == *old(tree)),
        r matches Ok(Some(s)) ==> {
            let t = tokens_view(tokens@[0].elements@);
            let f = final(tree).functions@[old(tree).functions@.len() as int];
            &&& 1 <= s.change <= tokens@.len()
            &&& final(tree).functions@.len() == old(tree).functions@.len() + 1
            &&& t[1] == TokenV::Label(f.name@)
            &&& t.len() == 2 + f.args
            &&& f.is_stack == (t[0] == TokenV::Label("stack_function"@))
            &&& f.content is Some
        },
        r matches Ok(Some(st)) ==> {
            let f = final(tree).functions@[old(tree).functions@.len() as int];
            let d = 2 + closer_of(tokens@.subrange(1, tokens@.len() as int));
            &&& f.content matches Some(b) && block_read(
                f,
                *final(tree),
                tokens@.subrange(d, tokens@.len() as int),
                b@,
            )
            &&& f.id.0 == old(tree).functions@.len()
        },
        forall|j: int|
            0 <= j < old(tree).functions@.len() && j < final(tree).functions@.len() ==> #[trigger] final(tree).functions@[j]
                == old(tree).functions@[j],
        final(tree).functions@.len() >= old(tree).functions@.len(),
        tokens@.len() > 0 ==> match fn_step(
            tokens@,
            var_names(old(tree).globals@),
            old(tree).functions@.map_values(|g: Function| fn_shape(g)),
        ) {
            None => r is Err,
            Some((sh, n)) => r matches Ok(Some(st)) && st.change == n && final(tree).functions@.map_values(
                |g: Function| fn_shape(g),
            ) == old(tree).functions@.map_values(|g: Function| fn_shape(g)).push(sh),
        },
{
    if tokens.len() == 0 {
        return Ok(None);
    }
    let ghost g = var_names(tree.globals@);
    let ghost fs = tree.functions@.map_values(|g: Function| fn_shape(g));
    let decl_step = parse_fnc_declaration(tokens)?;
    let i = decl_step.change;
    let decl = decl_step.val;
    let ghost t = tokens_view(tokens@[0].elements@);
    let ghost rest = tokens@.subrange(1, tokens@.len() as int);
    let ghost c = closer_of(rest);
    proof {
        reveal_strlit("stack_function");
        assert(decl.name@ == t[1]->Label_0);
    }
    if tree.find_fnc_with_name(decl.name.as_str()).is_some() {
        proof {
            let k = choose|k: int|
                0 <= k < tree.functions@.len() && tree.functions@[k].name@ == decl.name@;
            assert(fs[k].name == t[1]->Label_0);
        }
        return Err(
            LinedError::upgrade(
                "there's a function with the same name already".to_owned(),
                &tokens[0],
            ),
        );
    }
    let ghost sh = FnShape {
        name: t[1]->Label_0,
        args: arg_names(t).len(),
        n_locals: arg_names(t).len() + c as nat,
        is_stack: t[0] == TokenV::Label("stack_function"@),
    };
    let ghost decl_args = decl.arguments@;
    let ghost decl_locals = decl.locals@;
    proof {
        assert forall|k: int| 0 <= k < fs.len() implies (#[trigger] fs[k]).name != t[1]->Label_0 by {
            assert(tree.functions@[k].name@ != decl.name@);
        };
        assert(decl_args.map_values(|a: String| a@) =~= arg_names(t)) by {
            assert forall|m: int| 0 <= m < decl_args.len() implies decl_args.map_values(|a: String| a@)[m]
                == arg_names(t)[m] by {
                assert(t[2 + m] == TokenV::Label(decl_args[m]@));
            };
        };
        assert(decl_locals.map_values(|d: VariableDeclaration| d.name@) =~= decl_names(rest, c)) by {
            assert forall|m: int| 0 <= m < decl_locals.len() implies decl_locals.map_values(
                |d: VariableDeclaration| d.name@,
            )[m] == decl_names(rest, c)[m] by {
                assert(rest[m] == tokens@[1 + m]);
            };
        };
    }
    let ghost tree0 = *tree;
    let id = tree.push_fnc(decl);
    let ghost tree1 = *tree;
    proof {
        assert(tree1.functions@.map_values(|g: Function| fn_shape(g)) =~= fs.push(sh));
    }
    // the constant cells that reset the locals on entry
    let n = tree.functions[id.0].locals.len();
    let mut j = tree.functions[id.0].args;
    while j < n
        invariant
            tree.functions == tree1.functions,
            tree.globals == tree1.globals,
            tree.features == tree1.features,
            id.0 < tree1.functions@.len(),
            n == tree1.functions@[id.0 as int].locals@.len(),
            sorted_unique(tree.constants_used@),
            seq_set_le(tree1.constants_used@, tree.constants_used@),
            forall|m: int|
                tree1.functions@[id.0 as int].args <= m < j ==> tree.constants_used@.contains(
                    #[trigger] tree1.functions@[id.0 as int].locals@[m].default_value,
                ),
        decreases n - j,
    {
        let v = tree.functions[id.0].locals[j].default_value;
        insert_constant(&mut tree.constants_used, v);
        j += 1;
    }
    let ghost tree2 = *tree;
    proof {
        assert(tree0.functions@.map_values(|f: Function| fn_shape(f)).len() == tree0.functions@.len());
        lemma_bodies_mono(&tree0, &tree2);
        assert(tree2.local_defaults_ok()) by {
            assert forall|f: int, m: int|
                0 <= f < tree2.functions@.len() && tree2.functions@[f].args <= m
                    < tree2.functions@[f].locals@.len() implies tree2.constants_used@.contains(
                #[trigger] tree2.functions@[f].locals@[m].default_value,
            ) by {
                if f < tree0.functions@.len() {
                    assert(tree2.functions@[f] == tree0.functions@[f]);
                    assert(tree0.constants_used@.contains(tree0.functions@[f].locals@[m].default_value));
                }
            };
        };
    }
    let tree_ref: &ProgramTree = tree;
    assert(function_ids_ok(tree_ref.functions@, id.0 as int));
    assert(tree_ref.ids_ok());
    let mut context = BuildingContext {
        cur_function: tree_ref.get_fnc(id),
        cur_tree: tree_ref,
        constants: Vec::new(),
    };
    proof {
        assert(scope_of(*context.cur_function, *context.cur_tree) == Scope {
            locals: arg_names(t) + decl_names(rest, c),
            globals: g,
            fns: fs.push(sh),
            name: sh.name,
            is_stack: sh.is_stack,
        });
        assert(tokens@.subrange(i as int, tokens@.len() as int) == tokens@.subrange(2 + c, tokens@.len() as int));
    }
    let ghost f_mid = *context.cur_function;
    let ghost t_mid = *context.cur_tree;
    let step = parse_internal(&tokens[i..tokens.len()], &mut context)?;
    let ghost cs = context.shape();
    let block = step.val;
    let change = step.change;
    let constants = context.constants;
    let mut k: usize = 0;
    while k < constants.len()
        invariant
            k <= constants@.len(),
            tree.functions == tree2.functions,
            tree.globals == tree2.globals,
            tree.features == tree2.features,
            sorted_unique(tree.constants_used@),
            seq_set_le(tree2.constants_used@, tree.constants_used@),
            forall|m: int| 0 <= m < k ==> tree.constants_used@.contains(#[trigger] constants@[m]),
        decreases constants@.len() - k,
    {
        insert_constant(&mut tree.constants_used, constants[k]);
        k += 1;
    }
    let ghost tree3 = *tree;
    proof {
        lemma_bodies_mono(&tree2, &tree3);
        assert(shape_le(cs, tree3.shape())) by {
            assert forall|x: i32| cs.consts.contains(x) implies tree3.shape().consts.contains(x) by {
                assert(constants@.contains(x));
                let m = choose|m: int| 0 <= m < constants@.len() && constants@[m] == x;
                assert(tree.constants_used@.contains(constants@[m]));
            };
        };
    }
    let ghost body = block@;
    tree.functions[id.0].content = Some(block);
    proof {
        let f_fin = tree.functions@[id.0 as int];
        assert(f_fin.locals == f_mid.locals);
        assert(tree.functions@.map_values(|f: Function| fn_shape(f)) =~= t_mid.functions@.map_values(
            |f: Function| fn_shape(f),
        )) by {
            assert forall|k: int| 0 <= k < tree.functions@.len() implies fn_shape(tree.functions@[k])
                == fn_shape(t_mid.functions@[k]) by {
                if k != id.0 {
                    assert(tree.functions@[k] == t_mid.functions@[k]);
                }
            };
        };
        assert(same_scope(f_mid, t_mid, f_fin, *tree));
        lemma_block_frame(f_mid, t_mid, f_fin, *tree, tokens@.subrange(i as int, tokens@.len() as int), body);
    }
    proof {
        assert(tree.functions@.map_values(|f: Function| fn_shape(f)) =~= tree3.functions@.map_values(
            |f: Function| fn_shape(f),
        ));
        assert(tree.shape() == tree3.shape());
        lemma_block_mono(cs, tree.shape(), id.0 as int, block@);
        assert forall|f: int| 0 <= f < tree.functions@.len() implies ((
        #[trigger] tree.functions@[f]).content matches Some(bl) ==> block_ok(tree.shape(), f, bl@)) by {
            if f != id.0 {
                assert(tree.functions@[f] == tree3.functions@[f]);
            }
        };
        assert forall|f: int| 0 <= f < tree.functions@.len() implies function_ids_ok(
            tree.functions@,
            f,
        ) by {
            assert(function_ids_ok(tree3.functions@, f));
        };
        assert(tree.local_defaults_ok()) by {
            assert forall|f: int, m: int|
                0 <= f < tree.functions@.len() && tree.functions@[f].args <= m
                    < tree.functions@[f].locals@.len() implies tree.constants_used@.contains(
                #[trigger] tree.functions@[f].locals@[m].default_value,
            ) by {
                assert(tree3.functions@[f].locals == tree.functions@[f].locals);
                assert(tree2.constants_used@.contains(tree2.functions@[f].locals@[m].default_value));
            };
        };
        assert(tree.names_unique()) by {
            assert forall|f: int, g: int|
                0 <= f < tree.functions@.len() && 0 <= g < tree.functions@.len() && f != g
                    implies #[trigger] tree.functions@[f].name@ != #[trigger] tree.functions@[g].name@ by {
                assert(tree3.functions@[f].name == tree.functions@[f].name);
                assert(tree3.functions@[g].name == tree.functions@[g].name);
            };
        };
        assert(tree.uses_stack() == tree3.uses_stack()) by {
            if tree.uses_stack() {
                let f = choose|f: int| 0 <= f < tree.functions@.len() && (#[trigger] tree.functions@[f]).is_stack;
                assert(tree3.functions@[f].is_stack);
            }
            if tree3.uses_stack() {
                let f = choose|f: int| 0 <= f < tree3.functions@.len() && (#[trigger] tree3.functions@[f]).is_stack;
                assert(tree.functions@[f].is_stack);
            }
        };
    }
    Ok(Some(SuccessStep::new((), i + change)))
}

} // verus!

verus! {

/// The first function named `name` has this many arguments and this stack status.
fn check_specific_function_exists(
    tree: &ProgramTree,
    name: &str,
    expected_args: usize,
    expected_is_stack: bool,
) -> (r: Result<(), String>)
    ensures
        r is Ok ==> exists|f: int|
            0 <= f < tree.functions@.len() && (#[trigger] tree.functions@[f]).name@ == name@
                && tree.functions@[f].args == expected_args && tree.functions@[f].is_stack
                == expected_is_stack,
        tree.names_unique() && (exists|f: int|
            0 <= f < tree.functions@.len() && (#[trigger] tree.functions@[f]).name@ == name@
                && tree.functions@[f].args == expected_args && tree.functions@[f].is_stack
                == expected_is_stack) ==> r is Ok,
        r is Ok <==> fn_in(
            tree.functions@.map_values(|g: Function| fn_shape(g)),
            name@,
            expected_args as nat,
            expected_is_stack,
        ),
{
    let f = match tree.find_fnc_with_name(name) {
        Some(f) => f,
        None => {
            let mut msg: Vec<char> = Vec::new();
            push(&mut msg, name);
            push(&mut msg, " function is not defined");
            return Err(collapse(msg));
        },
    };
    proof {
        let k = first_fn(*tree, name@)->Some_0;
        if tree.names_unique() {
            assert forall|g: int|
                0 <= g < tree.functions@.len() && tree.functions@[g].name@ == name@ implies g == k by {
                if g != k {
                    assert(tree.functions@[g].name@ != tree.functions@[k].name@);
                }
            };
        }
    }
    if f.args != expected_args {
        let mut msg: Vec<char> = Vec::new();
        push(&mut msg, name);
        push(&mut msg, " function definition was expected to have ");
        push_nat(&mut msg, expected_args as u64);
        push(&mut msg, " arguments but had ");
        push_nat(&mut msg, f.args as u64);
        push(&mut msg, " arguments");
        return Err(collapse(msg));
    }
    if f.is_stack != expected_is_stack {
        let mut msg: Vec<char> = Vec::new();
        push(&mut msg, name);
        push(&mut msg, " function stack status was expected to be ");
        push(&mut msg, bool_text(expected_is_stack));
        push(&mut msg, " but was ");
        push(&mut msg, bool_text(f.is_stack));
        return Err(collapse(msg));
    }
    Ok(())
}

fn bool_text(b: bool) -> &'static str {
    if b {
        "true"
    } else {
        "false"
    }
}

/// Where the program uses stack functions, `push` (one argument), `pop`
/// (none) and `stack_return` (one) exist and are no stack functions.
fn stack_error(e: String) -> String {
    let mut msg: Vec<char> = Vec::new();
    push(
        &mut msg,
        "Stack feature was enabled,\nbut at least one of the required function definitions were missing or incorrect:\n",
    );
    push(&mut msg, e.as_str());
    collapse(msg)
}

fn check_features(tree: &ProgramTree) -> (r: Result<(), String>)
    ensures
        r is Ok <==> (tree.features.bits & STACK_FUNCTIONS == STACK_FUNCTIONS ==> {
            let fns = tree.functions@.map_values(|g: Function| fn_shape(g));
            &&& plain_fn_in(fns, push_name(), 1)
            &&& plain_fn_in(fns, pop_name(), 0)
            &&& plain_fn_in(fns, stack_return_name(), 1)
        }),
{
    proof {
        reveal_strlit("push");
        reveal_strlit("pop");
        reveal_strlit("stack_return");
        assert("push"@ =~= push_name());
        assert("pop"@ =~= pop_name());
        assert("stack_return"@ =~= stack_return_name());
    }
    if tree.features.contains(STACK_FUNCTIONS) {
        match check_specific_function_exists(tree, "push", 1, false) {
            Ok(()) => {},
            Err(e) => {
                return Err(stack_error(e));
            },
        }
        match check_specific_function_exists(tree, "pop", 0, false) {
            Ok(()) => {},
            Err(e) => {
                return Err(stack_error(e));
            },
        }
        match check_specific_function_exists(tree, "stack_return", 1, false) {
            Ok(()) => {},
            Err(e) => {
                return Err(stack_error(e));
            },
        }
    }
    Ok(())
}

/// With names unique, a function of a name, arity and stack status exists
/// exactly when the first function of that name has them.
proof fn lemma_plain_fn(tree: &ProgramTree, name: Seq<char>, args: nat)
    requires
        tree.names_unique(),
    ensures
        tree.has_plain_fn(name, args) == plain_fn_in(tree.functions@.map_values(|g: Function| fn_shape(g)), name, args),
{
    let fns = tree.functions@.map_values(|g: Function| fn_shape(g));
    if tree.has_plain_fn(name, args) {
        let f = choose|f: int|
            0 <= f < tree.functions@.len() && (#[trigger] tree.functions@[f]).name@ == name
                && tree.functions@[f].args == args && !tree.functions@[f].is_stack;
        assert(fns[f].name == name);
        let c = first_fn_in(fns, name)->Some_0;
        if c != f {
            assert(tree.functions@[c].name@ != tree.functions@[f].name@);
        }
    }
    if plain_fn_in(fns, name, args) {
        let c = first_fn_in(fns, name)->Some_0;
        assert(tree.functions@[c].name@ == name);
    }
}

/// Parses a whole program: globals up to `*`, then functions. The tree it
/// returns resolves every name, gives every call the callee's arity, records
/// every literal as a constant, has a `main` without arguments that is no
/// stack function, and has the three stack helpers where stack functions are used.
#[verifier::rlimit(100)]
pub fn parse(tokens: &[TokenLine]) -> (r: Result<ProgramTree, ParserError>)
    ensures
        r matches Ok(tree) ==> tree.wf(),
        r matches Ok(tree) ==> exists|c: int|
            declarations_closed_at(tokens@, c) && tree.globals@.len() == 3 + c && forall|k: int|
                0 <= k < c ==> tokens_view(tokens@[k].elements@) == seq![
                    TokenV::Label((#[trigger] tree.globals@[3 + k]).name@),
                    TokenV::Symbol(Symbol::Equal),
                    TokenV::Number(tree.globals@[3 + k].default_value),
                ],
        !(exists|c: int| declarations_closed_at(tokens@, c)) ==> r is Err,
        r is Ok <==> program_ok(tokens@),
        r matches Ok(tree) ==> program_fns(tokens@) == Some(
            tree.functions@.map_values(|g: Function| fn_shape(g)),
        ),
        r matches Ok(tree) ==> (labels_plain(tokens@) ==> forall|k: int|
            0 <= k < tree.functions@.len() ==> !(#[trigger] tree.functions@[k]).name@.contains('\n')),
        r matches Ok(tree) ==> program_bodies(tokens@).len() == tree.functions@.len() && forall|k: int|
            0 <= k < tree.functions@.len() ==> ((#[trigger] tree.functions@[k]).content matches Some(b)
                && block_read(tree.functions@[k], tree, program_bodies(tokens@)[k], b@)),
{
    let global_step = parse_variables(tokens)?;
    proof {
        lemma_closer_unique(tokens@, global_step.change - 1, closer_of(tokens@));
    }
    let mut rest: &[TokenLine] = &tokens[global_step.change..tokens.len()];
    let mut tree = ProgramTree {
        functions: Vec::new(),
        globals: Vec::new(),
        constants_used: Vec::new(),
        features: FeatureFlags::empty(),
    };
    let reserved = vec![
        VariableDeclaration::new("_temp".to_owned(), -100),
        VariableDeclaration::new("return".to_owned(), -200),
        VariableDeclaration::new("return_saver".to_owned(), -300),
    ];
    push_variables(reserved, &mut tree.globals, VariableType::Global, false);
    push_variables(global_step.val, &mut tree.globals, VariableType::Global, false);
    proof {
        reveal_strlit("_temp");
        reveal_strlit("return");
        reveal_strlit("return_saver");
        assert(tree.globals@[0].name@ =~= temp_name());
        assert(tree.globals@[1].name@ =~= return_name());
        assert(tree.globals@[2].name@ =~= return_saver_name());
        assert(0u32 & 1u32 == 0u32) by (bit_vector);
    }
    let ghost globals = tree.globals@;
    let ghost c = global_step.change - 1;
    let ghost decls = global_step.val@;
    assert(var_names(globals) =~= reserved_names() + decl_names(tokens@, c)) by {
        assert forall|k: int| 0 <= k < globals.len() implies var_names(globals)[k] == (reserved_names()
            + decl_names(tokens@, c))[k] by {
            if k >= 3 {
                assert(decls[k - 3].name@ == globals[k].name@);
                assert(tokens_view(tokens@[k - 3].elements@)[0] == TokenV::Label(decls[k - 3].name@));
            }
        };
    };
    assert(tree.functions@.map_values(|g: Function| fn_shape(g)) =~= Seq::<FnShape>::empty());
    assert(forall|k: int|
        0 <= k < c ==> tokens_view(tokens@[k].elements@) == seq![
            TokenV::Label((#[trigger] globals[3 + k]).name@),
            TokenV::Symbol(Symbol::Equal),
            TokenV::Number(globals[3 + k].default_value),
        ]) by {
        assert forall|k: int| 0 <= k < c implies tokens_view(tokens@[k].elements@) == seq![
            TokenV::Label((#[trigger] globals[3 + k]).name@),
            TokenV::Symbol(Symbol::Equal),
            TokenV::Number(globals[3 + k].default_value),
        ] by {
            assert(global_step.val@[k].name@ == globals[3 + k].name@);
        };
    };
    let ghost mut bodies: Seq<Seq<TokenLine>> = Seq::empty();
    assert(program_bodies(tokens@) == bodies + fns_bodies(
        rest@,
        var_names(globals),
        tree.functions@.map_values(|g: Function| fn_shape(g)),
    )) by {
        assert(rest@ =~= tokens@.subrange(c + 1, tokens@.len() as int));
        assert(Seq::<Seq<TokenLine>>::empty() + fns_bodies(rest@, var_names(globals), Seq::empty())
            =~= fns_bodies(rest@, var_names(globals), Seq::empty()));
    };
    loop
        invariant_except_break
            program_fns(tokens@) == fns_from(
                rest@,
                var_names(globals),
                tree.functions@.map_values(|g: Function| fn_shape(g)),
            ),
            program_bodies(tokens@) == bodies + fns_bodies(
                rest@,
                var_names(globals),
                tree.functions@.map_values(|g: Function| fn_shape(g)),
            ),
        invariant
            tree.building_ok(),
            tree.globals@ == globals,
            var_names(globals) == reserved_names() + decl_names(tokens@, c),
            bodies.len() == tree.functions@.len(),
            exists|p: int| 0 <= p <= tokens@.len() && rest@ == tokens@.subrange(p, tokens@.len() as int),
            labels_plain(tokens@) ==> forall|k: int|
                0 <= k < tree.functions@.len() ==> !(#[trigger] tree.functions@[k]).name@.contains('\n'),
            forall|k: int|
                0 <= k < tree.functions@.len() ==> ((#[trigger] tree.functions@[k]).content matches Some(b)
                    && block_read(tree.functions@[k], tree, bodies[k], b@)),
        ensures
            program_fns(tokens@) == Some(tree.functions@.map_values(|g: Function| fn_shape(g))),
            program_bodies(tokens@) == bodies,
        decreases rest@.len(),
    {
        let ghost fs = tree.functions@.map_values(|g: Function| fn_shape(g));
        let ghost old_tree = tree;
        let ghost old_rest = rest@;
        match push_next_function(rest, &mut tree)? {
            None => {
                proof {
                    assert(bodies + Seq::<Seq<TokenLine>>::empty() =~= bodies);
                }
                break;
            },
            Some(step) => {
                proof {
                    let d = 2 + closer_of(old_rest.subrange(1, old_rest.len() as int));
                    let body = old_rest.subrange(d, old_rest.len() as int);
                    let nb = bodies.push(body);
                    assert forall|k: int|
                        0 <= k < tree.functions@.len() implies ((#[trigger] tree.functions@[k]).content matches Some(b)
                            && block_read(tree.functions@[k], tree, nb[k], b@)) by {
                        if k < old_tree.functions@.len() {
                            assert(tree.functions@[k] == old_tree.functions@[k]);
                            assert(tree_ext(old_tree, tree)) by {
                                assert forall|i: int| 0 <= i < old_tree.functions@.len() implies #[trigger] tree.functions@[i]
                                    == old_tree.functions@[i] by {};
                            };
                            let b = old_tree.functions@[k].content->Some_0;
                            assert(nb[k] == bodies[k]);
                            lemma_block_ext(old_tree.functions@[k], old_tree, tree, bodies[k], b@);
                        } else {
                            assert(k == old_tree.functions@.len());
                            assert(nb[k] == body);
                        }
                    };
                    assert(bodies + fns_bodies(old_rest, var_names(globals), fs) =~= nb + fns_bodies(
                        old_rest.subrange(step.change as int, old_rest.len() as int),
                        var_names(globals),
                        tree.functions@.map_values(|g: Function| fn_shape(g)),
                    ));
                    bodies = nb;
                    let p = choose|p: int| 0 <= p <= tokens@.len() && old_rest == tokens@.subrange(p, tokens@.len() as int);
                    assert(old_rest.subrange(step.change as int, old_rest.len() as int) =~= tokens@.subrange(
                        p + step.change,
                        tokens@.len() as int,
                    ));
                    if labels_plain(tokens@) {
                        assert forall|k: int| 0 <= k < tree.functions@.len() implies !(#[trigger] tree.functions@[k]).name@.contains('\n') by {
                            if k < old_tree.functions@.len() {
                                assert(tree.functions@[k] == old_tree.functions@[k]);
                            } else {
                                assert(old_rest[0] == tokens@[p]);
                                assert(tokens@[p].elements@[1]@ == TokenV::Label(tree.functions@[k].name@));
                            }
                        };
                    }
                }
                proof {
                    assert(rest@.subrange(step.change as int, rest@.len() as int) =~= rest@.subrange(
                        step.change as int,
                        rest@.len() as int,
                    ));
                }
                rest = &rest[step.change..rest.len()];
            },
        }
    }
    let ghost shapes = tree.functions@.map_values(|g: Function| fn_shape(g));
    assert(program_fns(tokens@) == Some(shapes));
    proof {
        lemma_plain_fn(&tree, main_name(), 0);
        lemma_plain_fn(&tree, push_name(), 1);
        lemma_plain_fn(&tree, pop_name(), 0);
        lemma_plain_fn(&tree, stack_return_name(), 1);
        assert(tree.uses_stack() == exists|k: int| 0 <= k < shapes.len() && (#[trigger] shapes[k]).is_stack)
            by {
            if tree.uses_stack() {
                let k = choose|k: int| 0 <= k < tree.functions@.len() && (#[trigger] tree.functions@[k]).is_stack;
                assert(shapes[k].is_stack);
            }
            if exists|k: int| 0 <= k < shapes.len() && (#[trigger] shapes[k]).is_stack {
                let k = choose|k: int| 0 <= k < shapes.len() && (#[trigger] shapes[k]).is_stack;
                assert(tree.functions@[k].is_stack);
            }
        };
    }
    proof {
        reveal_strlit("main");
        assert("main"@ =~= main_name());
    }
    let main_fnc = match tree.find_fnc_with_name("main") {
        Some(f) => f,
        None => {
            return Err(LinedError::general("no main function".to_owned()));
        },
    };
    if main_fnc.is_stack {
        return Err(LinedError::general("main function cannot be stack function".to_owned()));
    }
    if main_fnc.args != 0 {
        return Err(LinedError::general("main function cannot take arguments".to_owned()));
    }
    proof {
        reveal_strlit("main");
        assert("main"@ =~= main_name());
    }
    match check_features(&tree) {
        Ok(()) => {},
        Err(e) => {
            return Err(LinedError::general(e));
        },
    }
    Ok(tree)
}

} // verus!

verus! {

// ---------------------------------------------------------------------------
// What a well-formed tree guarantees
/// Name resolution is sound: every global, every local and every function
/// of a well-formed tree is found again through its own id.
pub proof fn lemma_ids_resolve(tree: &ProgramTree)
    requires
        tree.wf(),
    ensures
        forall|i: int|
            0 <= i < tree.globals@.len() ==> tree.var_exists(#[trigger] tree.globals@[i].id)
                && tree.spec_get_var(tree.globals@[i].id) == tree.globals@[i],
        forall|f: int, j: int|
            0 <= f < tree.functions@.len() && 0 <= j < tree.functions@[f].locals@.len()
                ==> tree.var_exists(#[trigger] tree.functions@[f].locals@[j].id)
                && tree.spec_get_var(tree.functions@[f].locals@[j].id)
                == tree.functions@[f].locals@[j],
        forall|f: int|
            0 <= f < tree.functions@.len() ==> (#[trigger] tree.functions@[f]).id.0 == f,
{
    assert forall|f: int, j: int|
        0 <= f < tree.functions@.len() && 0 <= j < tree.functions@[f].locals@.len() implies tree.var_exists(
        #[trigger] tree.functions@[f].locals@[j].id,
    ) && tree.spec_get_var(tree.functions@[f].locals@[j].id) == tree.functions@[f].locals@[j] by {
        assert(function_ids_ok(tree.functions@, f));
    };
    assert forall|f: int| 0 <= f < tree.functions@.len() implies (#[trigger] tree.functions@[f]).id.0
        == f by {
        assert(function_ids_ok(tree.functions@, f));
    };
}

/// Every variable that a statement of function `f` of a well-formed tree
/// names exists, and resolving its id gives a variable with that id.
pub proof fn lemma_var_resolves(tree: &ProgramTree, f: int, v: VariableId)
    requires
        tree.wf(),
        var_ok(tree.shape(), f, v),
    ensures
        tree.var_exists(v),
        tree.spec_get_var(v).id == v,
{
    match v.kind {
        VariableType::Global => {},
        VariableType::Local(g) => {
            assert(function_ids_ok(tree.functions@, f));
        },
    }
}

/// The statements of a well-formed tree's bodies all resolve.
pub proof fn lemma_body_statements_ok(tree: &ProgramTree, f: int, k: int)
    requires
        tree.wf(),
        0 <= f < tree.functions@.len(),
        tree.functions@[f].content is Some,
        0 <= k < tree.functions@[f].content->Some_0@.len(),
    ensures
        stmt_ok(tree.shape(), f, tree.functions@[f].content->Some_0@[k]),
{
    assert(tree.bodies_ok());
    assert(block_ok(tree.shape(), f, tree.functions@[f].content->Some_0@));
}

/// The blocks of an `if` that resolves resolve too.
pub proof fn lemma_if_blocks_ok(sh: Shape, f: int, i: If, k: int)
    requires
        stmt_ok(sh, f, Statement::If(i)),
    ensures
        0 <= k < i.if_true@.len() ==> stmt_ok(sh, f, i.if_true@[k]),
        i.if_false matches Some(b) ==> (0 <= k < b@.len() ==> stmt_ok(sh, f, b@[k])),
{
}

/// Arity: a call that resolves in a well-formed tree passes exactly as many
/// arguments as the callee declares.
pub proof fn lemma_call_arity(tree: &ProgramTree, f: int, c: FunctionCall)
    requires
        tree.wf(),
        stmt_ok(tree.shape(), f, Statement::FunctionCall(c)),
    ensures
        c.fnc_id.0 < tree.functions@.len(),
        c.arguments@.len() == tree.functions@[c.fnc_id.0 as int].args,
{
}

/// Constants closure: every literal of a statement that resolves in a tree
/// is among the tree's constants.
pub proof fn lemma_literal_is_constant(tree: &ProgramTree, f: int, n: i32)
    requires
        arg_ok(tree.shape(), f, ArgumentCallArg::Literal(n)),
    ensures
        tree.constants_used@.contains(n),
{
}

/// Every default value of a local that is no argument has a constant cell.
pub proof fn lemma_local_default_is_constant(tree: &ProgramTree, f: int, j: int)
    requires
        tree.wf(),
        0 <= f < tree.functions@.len(),
        tree.functions@[f].args <= j < tree.functions@[f].locals@.len(),
    ensures
        tree.constants_used@.contains(tree.functions@[f].locals@[j].default_value),
{
}

/// Stack invariant: where a well-formed tree has a stack function, `push`
/// and `stack_return` with one argument and `pop` with none exist, none of
/// them a stack function.
pub proof fn lemma_stack_helpers(tree: &ProgramTree, f: int)
    requires
        tree.wf(),
        0 <= f < tree.functions@.len(),
        tree.functions@[f].is_stack,
    ensures
        tree.has_plain_fn(push_name(), 1),
        tree.has_plain_fn(pop_name(), 0),
        tree.has_plain_fn(stack_return_name(), 1),
{
    assert(tree.uses_stack());
}

} // verus!
