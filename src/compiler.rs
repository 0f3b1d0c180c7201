use vstd::prelude::*;

use crate::lexer::ConditionKind;
use crate::parser::{
    arg_ok, block_ok, call_ok, function_ids_ok, main_name, pop_name, push_name, stack_return_name,
    stmt_ok, var_ok, ArgumentCallArg, Function, FunctionCall, FunctionId, If, ProgramTree,
    Statement, Variable, VariableId, VariableType,
};
use crate::string_builder::{
    capped, collapse, count_nl, int_text, lemma_count_nl_concat, lemma_strip_nl, nat_text, push,
    push_int, push_int128, push_nat,
    strip_nl, Builder,
};

verus! {

/// What code generation records while it writes: the line of each variable's
/// cell, the labels used so far, and the cells that are written last.
pub struct CompilerContext {
    /// The line of the cell of each global.
    pub global_addresses: Vec<usize>,
    /// The line of the cell of each local, function by function.
    pub local_addresses: Vec<Vec<usize>>,
    /// The next number for a unique label.
    pub element_counter: usize,
    /// `flag_<function>_<label>` cells: the name after `flag_`, and the line.
    pub flags: Vec<(String, usize)>,
    /// `addr_<counter>` cells: the counter, and the line to come back to.
    pub addrs: Vec<(usize, usize)>,
}

impl CompilerContext {
    pub fn new() -> (r: CompilerContext)
        ensures
            r.global_addresses@.len() == 0,
            r.local_addresses@.len() == 0,
            r.element_counter == 0,
            r.flags@.len() == 0,
            r.addrs@.len() == 0,
    {
        CompilerContext {
            global_addresses: Vec::new(),
            local_addresses: Vec::new(),
            element_counter: 0,
            flags: Vec::new(),
            addrs: Vec::new(),
        }
    }

    /// The addresses cover every variable of the tree.
    pub open spec fn covers(&self, tree: &ProgramTree) -> bool {
        &&& self.global_addresses@.len() == tree.globals@.len()
        &&& self.local_addresses@.len() == tree.functions@.len()
        &&& forall|f: int|
            0 <= f < tree.functions@.len() ==> (#[trigger] self.local_addresses@[f])@.len()
                == tree.functions@[f].locals@.len()
    }

    /// A fresh number for a label.
    fn push_counter(&mut self) -> (r: usize)
        ensures
            r == old(self).element_counter,
            final(self).element_counter == capped((old(self).element_counter + 1) as nat),
            final(self).global_addresses == old(self).global_addresses,
            final(self).local_addresses == old(self).local_addresses,
            final(self).flags == old(self).flags,
            final(self).addrs == old(self).addrs,
    {
        let r = self.element_counter;
        self.element_counter = self.element_counter.saturating_add(1);
        r
    }
}

// ---------------------------------------------------------------------------
// Names of cells
pub open spec fn var_text(tree: &ProgramTree, v: Variable) -> Seq<char> {
    match v.id.kind {
        VariableType::Global => "var_"@ + v.name@,
        VariableType::Local(f) => "var_"@ + tree.functions@[f.0 as int].name@ + "_"@ + v.name@,
    }
}

pub open spec fn const_text(n: int) -> Seq<char> {
    "const_"@ + int_text(n)
}

pub open spec fn fnc_name_text(f: Function) -> Seq<char> {
    "function_"@ + f.name@
}

pub open spec fn var_in_tree(tree: &ProgramTree, v: Variable) -> bool {
    v.id.kind matches VariableType::Local(f) ==> f.0 < tree.functions@.len()
}

pub fn get_var_text(t: &Variable, tree: &ProgramTree) -> (r: String)
    requires
        var_in_tree(tree, *t),
    ensures
        r@ == var_text(tree, *t),
{
    let mut b: Vec<char> = Vec::new();
    push(&mut b, "var_");
    match t.id.kind {
        VariableType::Global => {},
        VariableType::Local(id) => {
            push(&mut b, tree.get_fnc(id).name.as_str());
            push(&mut b, "_");
        },
    }
    push(&mut b, t.name.as_str());
    proof {
        match t.id.kind {
            VariableType::Global => {
                assert(b@ =~= "var_"@ + t.name@);
            },
            VariableType::Local(f) => {
                assert(b@ =~= "var_"@ + tree.functions@[f.0 as int].name@ + "_"@ + t.name@);
            },
        }
    }
    collapse(b)
}

pub fn get_constant_text(n: i32) -> (r: String)
    ensures
        r@ == const_text(n as int),
{
    let mut b: Vec<char> = Vec::new();
    push(&mut b, "const_");
    push_int(&mut b, n as i64);
    assert(b@ =~= const_text(n as int));
    collapse(b)
}

/// The cell of a variable: `<name>, DEC <default>`.
pub fn var_decl_text(t: &Variable, tree: &ProgramTree) -> (r: String)
    requires
        var_in_tree(tree, *t),
    ensures
        r@ == var_text(tree, *t) + ", DEC "@ + int_text(t.default_value as int),
{
    let mut b: Vec<char> = Vec::new();
    let name = get_var_text(t, tree);
    push(&mut b, name.as_str());
    push(&mut b, ", DEC ");
    push_int(&mut b, t.default_value as i64);
    assert(b@ =~= var_text(tree, *t) + ", DEC "@ + int_text(t.default_value as int));
    collapse(b)
}

/// The cell of a constant: `const_<n>, DEC <n>`.
pub fn constant_decl_text(t: i32) -> (r: String)
    ensures
        r@ == const_text(t as int) + ", DEC "@ + int_text(t as int),
{
    let mut b: Vec<char> = Vec::new();
    let name = get_constant_text(t);
    push(&mut b, name.as_str());
    push(&mut b, ", DEC ");
    push_int(&mut b, t as i64);
    assert(b@ =~= const_text(t as int) + ", DEC "@ + int_text(t as int));
    collapse(b)
}

pub fn get_real_fnc_name_text(t: &Function) -> (r: String)
    ensures
        r@ == fnc_name_text(*t),
{
    let mut b: Vec<char> = Vec::new();
    push(&mut b, "function_");
    push(&mut b, t.name.as_str());
    assert(b@ =~= fnc_name_text(*t));
    collapse(b)
}

// ---------------------------------------------------------------------------
// Loads and stores
/// An argument whose variable or function exists, in a context that knows
/// the cells' lines.
pub open spec fn arg_valid(tree: &ProgramTree, context: &CompilerContext, a: ArgumentCallArg) -> bool {
    match a {
        ArgumentCallArg::Literal(_) => true,
        ArgumentCallArg::Reference(v) => tree.var_exists(v),
        ArgumentCallArg::Deref(v) => tree.var_exists(v),
        ArgumentCallArg::GetAddress(v) => tree.var_exists(v),
        ArgumentCallArg::Flag(_, f) => f.0 < tree.functions@.len(),
    }
}

/// The lines of the cells: of the globals, and of each function's locals.
pub type AddrMap = (Seq<usize>, Seq<Seq<usize>>);

impl CompilerContext {
    pub open spec fn addr(&self) -> AddrMap {
        (self.global_addresses@, self.local_addresses@.map_values(|v: Vec<usize>| v@))
    }
}

/// The line of the cell of a variable.
pub open spec fn address_of(ad: AddrMap, v: VariableId) -> usize {
    match v.kind {
        VariableType::Global => ad.0[v.raw as int],
        VariableType::Local(f) => ad.1[f.0 as int][v.raw as int],
    }
}

/// The instruction that loads an argument into the accumulator.
pub open spec fn load_text(tree: &ProgramTree, ad: AddrMap, a: ArgumentCallArg) -> Seq<char> {
    match a {
        ArgumentCallArg::Literal(n) => "load "@ + const_text(n as int),
        ArgumentCallArg::Reference(v) => "load "@ + var_text(tree, tree.spec_get_var(v)),
        ArgumentCallArg::Deref(v) => "loadi "@ + var_text(tree, tree.spec_get_var(v)),
        ArgumentCallArg::GetAddress(v) => "load "@ + "const_"@ + nat_text(address_of(ad, v) as nat),
        ArgumentCallArg::Flag(label, f) => "load flag_"@ + tree.functions@[f.0 as int].name@
            + "_"@ + label@,
    }
}

pub proof fn lemma_var_in_tree(tree: &ProgramTree, v: VariableId)
    requires
        tree.ids_ok(),
        tree.var_exists(v),
    ensures
        var_in_tree(tree, tree.spec_get_var(v)),
        tree.spec_get_var(v).id == v,
{
    match v.kind {
        VariableType::Global => {},
        VariableType::Local(f) => {
            assert(function_ids_ok(tree.functions@, f.0 as int));
        },
    }
}

fn get_load_from_arg_text(arg: &ArgumentCallArg, tree: &ProgramTree, context: &CompilerContext) -> (r:
    String)
    requires
        tree.ids_ok(),
        context.covers(tree),
        arg_valid(tree, context, *arg),
    ensures
        r@ == load_text(tree, context.addr(), *arg),
{
    let mut b: Vec<char> = Vec::new();
    match arg {
        ArgumentCallArg::Literal(v) => {
            push(&mut b, "load ");
            let c = get_constant_text(*v);
            push(&mut b, c.as_str());
        },
        ArgumentCallArg::Reference(value_id) => {
            proof {
                lemma_var_in_tree(tree, *value_id);
            }
            push(&mut b, "load ");
            let t = get_var_text(tree.get_var(*value_id), tree);
            push(&mut b, t.as_str());
        },
        ArgumentCallArg::Deref(value_id) => {
            proof {
                lemma_var_in_tree(tree, *value_id);
            }
            push(&mut b, "loadi ");
            let t = get_var_text(tree.get_var(*value_id), tree);
            push(&mut b, t.as_str());
        },
        ArgumentCallArg::GetAddress(id) => {
            let address = match id.kind {
                VariableType::Global => context.global_addresses[id.raw],
                VariableType::Local(f) => context.local_addresses[f.0][id.raw],
            };
            push(&mut b, "load ");
            push(&mut b, "const_");
            push_nat(&mut b, address as u64);
        },
        ArgumentCallArg::Flag(content, id) => {
            push(&mut b, "load flag_");
            push(&mut b, tree.get_fnc(*id).name.as_str());
            push(&mut b, "_");
            push(&mut b, content.as_str());
        },
    }
    proof {
        match arg {
            ArgumentCallArg::Flag(label, f) => {
                assert(b@ =~= "load flag_"@ + tree.functions@[f.0 as int].name@ + "_"@ + label@);
            },
            ArgumentCallArg::GetAddress(v) => {
                assert(b@ =~= "load "@ + "const_"@ + nat_text(address_of(context.addr(), *v) as nat));
            },
            _ => {
                assert(b@ =~= load_text(tree, context.addr(), *arg));
            },
        }
    }
    collapse(b)
}

fn get_store_text(arg: VariableId, tree: &ProgramTree) -> (r: String)
    requires
        tree.ids_ok(),
        tree.var_exists(arg),
    ensures
        r@ == "store "@ + var_text(tree, tree.spec_get_var(arg)),
{
    proof {
        lemma_var_in_tree(tree, arg);
    }
    let mut b: Vec<char> = Vec::new();
    push(&mut b, "store ");
    let t = get_var_text(tree.get_var(arg), tree);
    push(&mut b, t.as_str());
    collapse(b)
}

/// Loads the argument and stores it into the variable.
fn get_set_from_arg(var: &Variable, arg: &ArgumentCallArg, tree: &ProgramTree, context: &CompilerContext) -> (r:
    String)
    requires
        tree.ids_ok(),
        context.covers(tree),
        arg_valid(tree, context, *arg),
        var_in_tree(tree, *var),
    ensures
        r@ == load_text(tree, context.addr(), *arg) + "\nstore "@ + var_text(tree, *var),
{
    let mut b: Vec<char> = Vec::new();
    let load = get_load_from_arg_text(arg, tree, context);
    push(&mut b, load.as_str());
    push(&mut b, "\nstore ");
    let t = get_var_text(var, tree);
    push(&mut b, t.as_str());
    assert(b@ =~= load_text(tree, context.addr(), *arg) + "\nstore "@ + var_text(tree, *var));
    collapse(b)
}

fn get_set_var_to_num_text(var: &Variable, value: i32, tree: &ProgramTree) -> (r: String)
    requires
        var_in_tree(tree, *var),
    ensures
        r@ == "load "@ + const_text(value as int) + "\nstore "@ + var_text(tree, *var),
{
    let mut b: Vec<char> = Vec::new();
    push(&mut b, "load ");
    let c = get_constant_text(value);
    push(&mut b, c.as_str());
    push(&mut b, "\nstore ");
    let t = get_var_text(var, tree);
    push(&mut b, t.as_str());
    assert(b@ =~= "load "@ + const_text(value as int) + "\nstore "@ + var_text(tree, *var));
    collapse(b)
}

fn get_set_var_to_other_text(var: &Variable, value: &Variable, tree: &ProgramTree) -> (r: String)
    requires
        var_in_tree(tree, *var),
        var_in_tree(tree, *value),
    ensures
        r@ == "load "@ + var_text(tree, *value) + "\nstore "@ + var_text(tree, *var),
{
    let mut b: Vec<char> = Vec::new();
    push(&mut b, "load ");
    let v = get_var_text(value, tree);
    push(&mut b, v.as_str());
    push(&mut b, "\nstore ");
    let t = get_var_text(var, tree);
    push(&mut b, t.as_str());
    assert(b@ =~= "load "@ + var_text(tree, *value) + "\nstore "@ + var_text(tree, *var));
    collapse(b)
}

} // verus!

verus! {

// ---------------------------------------------------------------------------
// Cells of constants and variables
pub open spec fn const_cell(c: i32) -> Seq<char> {
    const_text(c as int) + ", DEC "@ + int_text(c as int)
}

pub open spec fn var_cell(tree: &ProgramTree, v: Variable) -> Seq<char> {
    var_text(tree, v) + ", DEC "@ + int_text(v.default_value as int)
}

/// The cells of the first `n` constants.
pub open spec fn consts_fold(cs: Seq<i32>, n: int) -> Seq<char>
    decreases n,
{
    if n <= 0 || n > cs.len() {
        Seq::empty()
    } else {
        add_line(consts_fold(cs, n - 1), const_cell(cs[n - 1]))
    }
}

/// After `t`, the cells of the first `n` variables of `vs`.
pub open spec fn vars_fold(tree: &ProgramTree, t: Seq<char>, vs: Seq<Variable>, n: int) -> Seq<char>
    decreases n,
{
    if n <= 0 || n > vs.len() {
        t
    } else {
        add_line(vars_fold(tree, t, vs, n - 1), var_cell(tree, vs[n - 1]))
    }
}

/// After `base`, the cells of the globals.
pub open spec fn globals_from(tree: &ProgramTree, base: Seq<char>) -> Seq<char> {
    vars_fold(tree, base, tree.globals@, tree.globals@.len() as int)
}

/// After `base` and the globals, the cells of the locals of the first `n` functions.
pub open spec fn locals_from(tree: &ProgramTree, base: Seq<char>, n: int) -> Seq<char>
    decreases n,
{
    if n <= 0 || n > tree.functions@.len() {
        globals_from(tree, base)
    } else {
        vars_fold(
            tree,
            locals_from(tree, base, n - 1),
            tree.functions@[n - 1].locals@,
            tree.functions@[n - 1].locals@.len() as int,
        )
    }
}

/// The lines of the variable cells, laid out after `base`, when that text
/// starts at line `count`.
pub open spec fn cell_lines(tree: &ProgramTree, base: Seq<char>, count: usize) -> AddrMap {
    (
        Seq::new(
            tree.globals@.len(),
            |i: int| line_after(vars_fold(tree, base, tree.globals@, i), count),
        ),
        Seq::new(
            tree.functions@.len(),
            |f: int|
                Seq::new(
                    tree.functions@[f].locals@.len(),
                    |j: int|
                        line_after(
                            vars_fold(tree, locals_from(tree, base, f), tree.functions@[f].locals@, j),
                            count,
                        ),
                ),
        ),
    )
}

/// The line at which the constant section starts: after `jns function_main`
/// and `halt`.
pub open spec fn section_count() -> usize {
    line_after(program_start(), 0)
}

/// The line of each variable cell counted from the first variable cell.
pub open spec fn offsets(tree: &ProgramTree) -> AddrMap {
    cell_lines(tree, Seq::empty(), 0)
}

/// The line of a variable cell at offset `o` when the constant section takes `n` lines.
pub open spec fn shifted(n: nat, o: usize) -> usize {
    capped((capped((n + o) as nat) + section_count()) as nat)
}

/// What the constant section holds when it takes `n` lines: the program's
/// constants, and the line of each variable cell whose address `&name` loads.
pub open spec fn section_set(tree: &ProgramTree, n: nat) -> Set<i128> {
    Set::new(
        |x: i128|
            (exists|j: int|
                0 <= j < tree.constants_used@.len() && tree.constants_used@[j] as i128 == x) || (
            exists|o: usize|
                taken_addrs(tree, offsets(tree)).contains(o) && x == shifted(n, o) as i128),
    )
}

pub open spec fn increasing(u: Seq<i128>) -> bool {
    forall|i: int, j: int| 0 <= i < j < u.len() ==> u[i] < u[j]
}

/// `n` lines hold the values of the section, one cell each.
pub open spec fn section_fits(tree: &ProgramTree, n: nat) -> bool {
    exists|u: Seq<i128>| increasing(u) && u.to_set() == section_set(tree, n) && u.len() <= n
}

/// The number of lines of the constant section: the fewest that hold its values.
pub open spec fn section_n(tree: &ProgramTree) -> nat {
    choose|n: nat| section_fits(tree, n) && forall|m: nat| m < n ==> !section_fits(tree, m)
}

/// The values of the constant section, in increasing order.
pub open spec fn section_seq(tree: &ProgramTree) -> Seq<i128> {
    choose|u: Seq<i128>| increasing(u) && u.to_set() == section_set(tree, section_n(tree))
}

pub open spec fn value_cell(x: i128) -> Seq<char> {
    "const_"@ + int_text(x as int) + ", DEC "@ + int_text(x as int)
}

/// The cells of the first `k` values.
pub open spec fn values_fold(u: Seq<i128>, k: int) -> Seq<char>
    decreases k,
{
    if k <= 0 || k > u.len() {
        Seq::empty()
    } else {
        add_line(values_fold(u, k - 1), value_cell(u[k - 1]))
    }
}

/// A filler cell: where the values take fewer lines than the section
/// needs, since the lines of the variable cells depend on its size.
pub open spec fn pad_cell(k: nat) -> Seq<char> {
    "pad_"@ + nat_text(k) + ", DEC 0"@
}

/// After `t`, filler cells `a` up to `b`.
pub open spec fn pads_fold(t: Seq<char>, a: int, b: int) -> Seq<char>
    decreases b - a,
{
    if a >= b {
        t
    } else {
        add_line(pads_fold(t, a, b - 1), pad_cell((b - 1) as nat))
    }
}

/// The constant section: a cell for each value, in increasing order, then
/// the filler cells.
#[verifier::opaque]
pub open spec fn section(tree: &ProgramTree) -> Seq<char> {
    let u = section_seq(tree);
    pads_fold(values_fold(u, u.len() as int), u.len() as int, section_n(tree) as int)
}

/// The constant section and the globals.
pub open spec fn globals_fold(tree: &ProgramTree) -> Seq<char> {
    globals_from(tree, section(tree))
}

/// After the globals, the cells of the locals of the first `n` functions.
pub open spec fn locals_fold(tree: &ProgramTree, n: int) -> Seq<char> {
    locals_from(tree, section(tree), n)
}

pub open spec fn variables_text(tree: &ProgramTree) -> Seq<char> {
    strip_nl(locals_fold(tree, tree.functions@.len() as int))
}

/// The lines of the cells when their text starts at line `count`.
pub open spec fn program_addrs(tree: &ProgramTree, count: usize) -> AddrMap {
    cell_lines(tree, section(tree), count)
}

/// Lays out the variable cells after the builder's text, which starts at
/// line `count`, and records the line of each cell.
fn layout_variables(tree: &ProgramTree, context: &mut CompilerContext, builder: Builder, count: usize) -> (r:
    Builder)
    requires
        tree.ids_ok(),
        builder.wf(),
    ensures
        r.wf(),
        final(context).covers(tree),
        r.text() == locals_from(tree, builder.text(), tree.functions@.len() as int),
        final(context).addr() == cell_lines(tree, builder.text(), count),
        final(context).gen() == old(context).gen(),
{
    let ghost base = builder.text();
    let mut builder = builder;
    let mut global_addresses: Vec<usize> = Vec::new();
    let mut g: usize = 0;
    while g < tree.globals.len()
        invariant
            tree.ids_ok(),
            builder.wf(),
            global_addresses@.len() == g,
            g <= tree.globals@.len(),
            builder.text() == vars_fold(tree, base, tree.globals@, g as int),
            forall|i: int|
                0 <= i < g ==> #[trigger] global_addresses@[i] == line_after(
                    vars_fold(tree, base, tree.globals@, i),
                    count,
                ),
        decreases tree.globals@.len() - g,
    {
        global_addresses.push(builder.count().saturating_add(count));
        let t = var_decl_text(&tree.globals[g], tree);
        builder.push_line_smart(t.as_str());
        g += 1;
    }
    let mut local_addresses: Vec<Vec<usize>> = Vec::new();
    let mut f: usize = 0;
    while f < tree.functions.len()
        invariant
            tree.ids_ok(),
            builder.wf(),
            f <= tree.functions@.len(),
            local_addresses@.len() == f,
            builder.text() == locals_from(tree, base, f as int),
            forall|h: int|
                0 <= h < f ==> (#[trigger] local_addresses@[h])@ == cell_lines(tree, base, count).1[h],
        decreases tree.functions@.len() - f,
    {
        let fnc = &tree.functions[f];
        let ghost start = builder.text();
        let mut addresses: Vec<usize> = Vec::new();
        let mut j: usize = 0;
        while j < fnc.locals.len()
            invariant
                tree.ids_ok(),
                f < tree.functions@.len(),
                *fnc == tree.functions@[f as int],
                builder.wf(),
                j <= fnc.locals@.len(),
                addresses@.len() == j,
                start == locals_from(tree, base, f as int),
                builder.text() == vars_fold(tree, start, fnc.locals@, j as int),
                forall|i: int|
                    0 <= i < j ==> #[trigger] addresses@[i] == line_after(
                        vars_fold(tree, start, fnc.locals@, i),
                        count,
                    ),
            decreases fnc.locals@.len() - j,
        {
            proof {
                assert(function_ids_ok(tree.functions@, f as int));
            }
            addresses.push(builder.count().saturating_add(count));
            let t = var_decl_text(&fnc.locals[j], tree);
            builder.push_line_smart(t.as_str());
            j += 1;
        }
        assert(addresses@ =~= cell_lines(tree, base, count).1[f as int]);
        local_addresses.push(addresses);
        f += 1;
    }
    context.global_addresses = global_addresses;
    context.local_addresses = local_addresses;
    proof {
        assert(context.addr().0 =~= cell_lines(tree, base, count).0);
        assert(context.addr().1 =~= cell_lines(tree, base, count).1);
    }
    builder
}

/// Adds `x` to an increasing sequence.
fn insert_value(v: &mut Vec<i128>, x: i128)
    requires
        increasing(old(v)@),
    ensures
        increasing(final(v)@),
        final(v)@.to_set() == old(v)@.to_set().insert(x),
        final(v)@.len() <= old(v)@.len() + 1,
{
    let mut i: usize = 0;
    while i < v.len() && v[i] < x
        invariant
            i <= v@.len(),
            forall|k: int| 0 <= k < i ==> v@[k] < x,
        decreases v@.len() - i,
    {
        i += 1;
    }
    if i < v.len() && v[i] == x {
        assert(v@.to_set() =~= v@.to_set().insert(x));
        return;
    }
    let ghost before = v@;
    v.insert(i, x);
    assert forall|y: i128| #[trigger] v@.to_set().contains(y) <==> before.to_set().insert(x).contains(y) by {
        if v@.contains(y) {
            let j = choose|j: int| 0 <= j < v@.len() && v@[j] == y;
            if j < i {
                assert(before[j] == y);
            } else if j > i {
                assert(before[j - 1] == y);
            }
        }
        if before.contains(y) {
            let j = choose|j: int| 0 <= j < before.len() && before[j] == y;
            if j < i {
                assert(v@[j] == y);
            } else {
                assert(v@[j + 1] == y);
            }
        }
        if y == x {
            assert(v@[i as int] == y);
        }
    };
    assert(v@.to_set() =~= before.to_set().insert(x));
}

/// Two increasing sequences of the same values are the same.
proof fn lemma_increasing_unique(u: Seq<i128>, w: Seq<i128>)
    requires
        increasing(u),
        increasing(w),
        u.to_set() == w.to_set(),
    ensures
        u == w,
    decreases u.len(),
{
    if u.len() == 0 {
        if w.len() > 0 {
            assert(w.to_set().contains(w[0]));
        }
    } else if w.len() == 0 {
        assert(u.to_set().contains(u[0]));
    } else {
        assert(u.to_set().contains(w[0]));
        assert(w.to_set().contains(u[0]));
        let i = choose|i: int| 0 <= i < u.len() && u[i] == w[0];
        let j = choose|j: int| 0 <= j < w.len() && w[j] == u[0];
        assert(u[0] == w[0]) by {
            if i > 0 {
                assert(u[0] < u[i]);
                assert(w[0] <= w[j]);
            }
        };
        let u1 = u.drop_first();
        let w1 = w.drop_first();
        assert(u1.to_set() =~= w1.to_set()) by {
            assert forall|y: i128| u1.to_set().contains(y) implies w1.to_set().contains(y) by {
                let k = choose|k: int| 0 <= k < u1.len() && u1[k] == y;
                assert(u[k + 1] == y && u[0] < y);
                assert(w.to_set().contains(y));
                let m = choose|m: int| 0 <= m < w.len() && w[m] == y;
                assert(m != 0);
                assert(w1[m - 1] == y);
            };
            assert forall|y: i128| w1.to_set().contains(y) implies u1.to_set().contains(y) by {
                let k = choose|k: int| 0 <= k < w1.len() && w1[k] == y;
                assert(w[k + 1] == y && w[0] < y);
                assert(u.to_set().contains(y));
                let m = choose|m: int| 0 <= m < u.len() && u[m] == y;
                assert(m != 0);
                assert(u1[m - 1] == y);
            };
        };
        lemma_increasing_unique(u1, w1);
        assert(u =~= seq![u[0]] + u1);
        assert(w =~= seq![w[0]] + w1);
    }
}

/// The values of the section when it takes `n` lines, in increasing order.
fn section_values(tree: &ProgramTree, taken: &Vec<usize>, n: usize) -> (u: Vec<i128>)
    requires
        taken@.to_set() == taken_addrs(tree, offsets(tree)),
    ensures
        increasing(u@),
        u@.to_set() == section_set(tree, n as nat),
        u@.len() <= tree.constants_used@.len() + taken@.len(),
        forall|k: int| 0 <= k < u@.len() ==> u@[k] >= -0x8000_0000,
{
    let mut u: Vec<i128> = Vec::new();
    let ghost cs = tree.constants_used@;
    let mut k: usize = 0;
    assert(u@.to_set() =~= Set::<i128>::empty());
    while k < tree.constants_used.len()
        invariant
            increasing(u@),
            k <= cs.len(),
            cs == tree.constants_used@,
            u@.len() <= k,
            forall|i: int| 0 <= i < u@.len() ==> u@[i] >= -0x8000_0000,
            u@.to_set() == Set::new(|x: i128| exists|j: int| 0 <= j < k && cs[j] as i128 == x),
        decreases cs.len() - k,
    {
        let ghost before = u@.to_set();
        insert_value(&mut u, tree.constants_used[k] as i128);
        assert forall|i: int| 0 <= i < u@.len() implies u@[i] >= -0x8000_0000 by {
            assert(u@.to_set().contains(u@[i]));
        };
        assert(u@.to_set() =~= Set::new(|x: i128| exists|j: int| 0 <= j < k + 1 && cs[j] as i128 == x)) by {
            assert forall|x: i128| u@.to_set().contains(x) implies exists|j: int| 0 <= j < k + 1 && cs[j] as i128 == x by {
                if x == cs[k as int] as i128 {
                    assert(0 <= k < k + 1 && cs[k as int] as i128 == x);
                }
            };
        };
        k += 1;
    }
    let ghost cset = u@.to_set();
    let mut t: usize = 0;
    while t < taken.len()
        invariant
            increasing(u@),
            t <= taken@.len(),
            u@.len() <= cs.len() + t,
            forall|i: int| 0 <= i < u@.len() ==> u@[i] >= -0x8000_0000,
            cset == Set::new(|x: i128| exists|j: int| 0 <= j < cs.len() && cs[j] as i128 == x),
            u@.to_set() == cset + Set::new(|x: i128| exists|m: int| 0 <= m < t && x == shifted(n as nat, taken@[m]) as i128),
        decreases taken@.len() - t,
    {
        let o = taken[t];
        let a = (n.saturating_add(o)).saturating_add(line_count_start());
        assert(a == shifted(n as nat, o));
        insert_value(&mut u, a as i128);
        assert forall|i: int| 0 <= i < u@.len() implies u@[i] >= -0x8000_0000 by {
            assert(u@.to_set().contains(u@[i]));
        };
        assert(u@.to_set() =~= cset + Set::new(|x: i128| exists|m: int| 0 <= m < t + 1 && x == shifted(n as nat, taken@[m]) as i128)) by {
            assert forall|x: i128| (cset + Set::new(|x: i128| exists|m: int| 0 <= m < t + 1 && x == shifted(n as nat, taken@[m]) as i128)).contains(x) implies u@.to_set().contains(x) by {
                if exists|m: int| 0 <= m < t + 1 && x == shifted(n as nat, taken@[m]) as i128 {
                    let m = choose|m: int| 0 <= m < t + 1 && x == shifted(n as nat, taken@[m]) as i128;
                    if m < t {
                        assert(exists|m2: int| 0 <= m2 < t && x == shifted(n as nat, taken@[m2]) as i128);
                    }
                }
            };
        };
        t += 1;
    }
    assert(u@.to_set() =~= section_set(tree, n as nat)) by {
        assert forall|x: i128| section_set(tree, n as nat).contains(x) implies u@.to_set().contains(x) by {
            if exists|o: usize| taken_addrs(tree, offsets(tree)).contains(o) && x == shifted(n as nat, o) as i128 {
                let o = choose|o: usize| taken_addrs(tree, offsets(tree)).contains(o) && x == shifted(n as nat, o) as i128;
                assert(taken@.to_set().contains(o));
                let m = choose|m: int| 0 <= m < taken@.len() && taken@[m] == o;
                assert(exists|m2: int| 0 <= m2 < taken@.len() && x == shifted(n as nat, taken@[m2]) as i128);
            }
        };
        assert forall|x: i128| u@.to_set().contains(x) implies section_set(tree, n as nat).contains(x) by {
            if exists|m: int| 0 <= m < taken@.len() && x == shifted(n as nat, taken@[m]) as i128 {
                let m = choose|m: int| 0 <= m < taken@.len() && x == shifted(n as nat, taken@[m]) as i128;
                assert(taken@.to_set().contains(taken@[m]));
            }
        };
    };
    u
}

/// The number of lines before the constant section.
fn line_count_start() -> (r: usize)
    ensures
        r == section_count(),
{
    let mut b = Builder::new();
    b.push_line_smart("jns function_main");
    b.push_line_smart("halt");
    b.count()
}

/// Writes the constant section, then a cell for each global, then for each
/// local of each function, and records the line of each variable's cell.
/// The section holds, in increasing order, the program's constants and the
/// line of each variable cell whose address `&name` loads, one cell each, so
/// its size counts in those lines; it takes the fewest lines that hold them,
/// with filler cells where no size fits exactly. `count` is the line at
/// which the text will stand: after `jns function_main` and `halt`.
pub fn compile_variables(tree: &ProgramTree, context: &mut CompilerContext, count: usize) -> (r:
    String)
    requires
        tree.wf(),
        count == section_count(),
    ensures
        final(context).covers(tree),
        r@ == variables_text(tree),
        final(context).addr() == program_addrs(tree, count),
        final(context).gen() == old(context).gen(),
        increasing(section_seq(tree)),
        section_seq(tree).to_set() == section_set(tree, section_n(tree)),
        section_seq(tree).len() <= section_n(tree),
        forall|m: nat| m < section_n(tree) ==> !section_fits(tree, m),
{
    // where each variable cell stands among the variable cells
    let mut probe = CompilerContext::new();
    let empty = Builder::new();
    assert(empty.text() =~= Seq::<char>::empty());
    let _ = layout_variables(tree, &mut probe, empty, 0);
    let taken = collect_addresses(tree, &probe);
    // the fewest lines that hold the section's values
    let bound = tree.constants_used.len().saturating_add(taken.len());
    let mut n: usize = 0;
    let mut u = section_values(tree, &taken, n);
    while u.len() > n
        invariant
            taken@.to_set() == taken_addrs(tree, offsets(tree)),
            n <= tree.constants_used@.len() + taken@.len(),
            bound == capped((tree.constants_used@.len() + taken@.len()) as nat),
            increasing(u@),
            u@.to_set() == section_set(tree, n as nat),
            u@.len() <= tree.constants_used@.len() + taken@.len(),
            forall|i: int| 0 <= i < u@.len() ==> u@[i] >= -0x8000_0000,
            forall|m: nat| m < n ==> !section_fits(tree, m),
        decreases bound - n,
    {
        proof {
            assert forall|w: Seq<i128>| increasing(w) && w.to_set() == section_set(tree, n as nat) implies w.len() > n by {
                lemma_increasing_unique(w, u@);
            };
            assert forall|m: nat| m < n + 1 implies !section_fits(tree, m) by {
                if m == n {
                    if section_fits(tree, m) {
                        let w = choose|w: Seq<i128>| increasing(w) && w.to_set() == section_set(tree, m) && w.len() <= m;
                        lemma_increasing_unique(w, u@);
                    }
                }
            };
        }
        n = n + 1;
        u = section_values(tree, &taken, n);
    }
    proof {
        assert(section_fits(tree, n as nat));
        let sn = section_n(tree);
        assert(sn == n) by {
            if sn < n {
                assert(!section_fits(tree, sn));
            } else if sn > n {
                assert(!section_fits(tree, n as nat));
            }
        };
        lemma_increasing_unique(section_seq(tree), u@);
    }
    // the section
    let mut builder = Builder::new();
    let mut k: usize = 0;
    while k < u.len()
        invariant
            builder.wf(),
            k <= u@.len(),
            forall|i: int| 0 <= i < u@.len() ==> u@[i] >= -0x8000_0000,
            builder.text() == values_fold(u@, k as int),
        decreases u@.len() - k,
    {
        let mut b: Vec<char> = Vec::new();
        push(&mut b, "const_");
        push_int128(&mut b, u[k]);
        push(&mut b, ", DEC ");
        push_int128(&mut b, u[k]);
        assert(b@ =~= value_cell(u@[k as int]));
        let t = collapse(b);
        builder.push_line_smart(t.as_str());
        k += 1;
    }
    let ghost vt = builder.text();
    let mut p: usize = u.len();
    while p < n
        invariant
            builder.wf(),
            u@.len() <= p <= n,
            builder.text() == pads_fold(vt, u@.len() as int, p as int),
        decreases n - p,
    {
        let mut b: Vec<char> = Vec::new();
        push(&mut b, "pad_");
        push_nat(&mut b, p as u64);
        push(&mut b, ", DEC 0");
        assert(b@ =~= pad_cell(p as nat));
        let t = collapse(b);
        builder.push_line_smart(t.as_str());
        p += 1;
    }
    proof {
        reveal(section);
    }
    assert(builder.text() == section(tree));
    let builder = layout_variables(tree, context, builder, count);
    builder.collapse_flat()
}


// ---------------------------------------------------------------------------
// Calls
/// The callee exists and has a local for each argument; every argument and
/// the variable that takes the result exist.
pub open spec fn call_valid(tree: &ProgramTree, context: &CompilerContext, c: FunctionCall) -> bool {
    &&& c.fnc_id.0 < tree.functions@.len()
    &&& c.arguments@.len() <= tree.functions@[c.fnc_id.0 as int].locals@.len()
    &&& forall|k: int| 0 <= k < c.arguments@.len() ==> arg_valid(tree, context, #[trigger] c.arguments@[k])
    &&& (c.assignment matches Some(v) ==> tree.var_exists(v))
}

pub proof fn lemma_call_ok_valid(tree: &ProgramTree, context: &CompilerContext, f: int, c: FunctionCall)
    requires
        tree.ids_ok(),
        call_ok(tree.shape(), f, c),
    ensures
        call_valid(tree, context, c),
{
    assert(function_ids_ok(tree.functions@, c.fnc_id.0 as int));
    assert forall|k: int| 0 <= k < c.arguments@.len() implies arg_valid(
        tree,
        context,
        #[trigger] c.arguments@[k],
    ) by {
        assert(arg_ok(tree.shape(), f, c.arguments@[k]));
    };
}

/// The loads and stores that hand the first `n` arguments to the callee's locals.
pub open spec fn arg_sets_text(
    tree: &ProgramTree,
    ad: AddrMap,
    callee: Function,
    args: Seq<ArgumentCallArg>,
    n: int,
) -> Seq<char>
    decreases n,
{
    if n <= 0 {
        Seq::empty()
    } else {
        arg_sets_text(tree, ad, callee, args, n - 1) + load_text(tree, ad, args[n - 1])
            + "\nstore "@ + var_text(tree, callee.locals@[n - 1]) + "\n"@
    }
}

/// A call of a function that is no stack function: each argument into the
/// callee's local, the jump, and the store of the result.
pub open spec fn call_text(
    tree: &ProgramTree,
    ad: AddrMap,
    fnc_id: FunctionId,
    args: Seq<ArgumentCallArg>,
    assignment: Option<VariableId>,
) -> Seq<char> {
    let callee = tree.functions@[fnc_id.0 as int];
    arg_sets_text(tree, ad, callee, args, args.len() as int) + "jns "@ + fnc_name_text(callee)
        + match assignment {
        Some(v) => "\nstore "@ + var_text(tree, tree.spec_get_var(v)),
        None => Seq::empty(),
    }
}

pub open spec fn normal_call_text(tree: &ProgramTree, ad: AddrMap, c: FunctionCall) -> Seq<char> {
    call_text(tree, ad, c.fnc_id, c.arguments@, c.assignment)
}

pub fn get_normal_function_call_text(call: &FunctionCall, tree: &ProgramTree, context: &CompilerContext) -> (r:
    String)
    requires
        tree.ids_ok(),
        context.covers(tree),
        call_valid(tree, context, *call),
    ensures
        r@ == normal_call_text(tree, context.addr(), *call),
{
    let fnc = tree.get_fnc(call.fnc_id);
    proof {
        assert(function_ids_ok(tree.functions@, call.fnc_id.0 as int));
    }
    let mut b: Vec<char> = Vec::new();
    let mut i: usize = 0;
    while i < call.arguments.len()
        invariant
            tree.ids_ok(),
            context.covers(tree),
            call_valid(tree, context, *call),
            *fnc == tree.functions@[call.fnc_id.0 as int],
            function_ids_ok(tree.functions@, call.fnc_id.0 as int),
            i <= call.arguments@.len(),
            b@ == arg_sets_text(tree, context.addr(), *fnc, call.arguments@, i as int),
        decreases call.arguments@.len() - i,
    {
        let set = get_set_from_arg(&fnc.locals[i], &call.arguments[i], tree, context);
        push(&mut b, set.as_str());
        push(&mut b, "\n");
        i += 1;
    }
    push(&mut b, "jns ");
    let name = get_real_fnc_name_text(fnc);
    push(&mut b, name.as_str());
    if let Some(assignment) = call.assignment {
        proof {
            lemma_var_in_tree(tree, assignment);
        }
        push(&mut b, "\nstore ");
        let var = get_var_text(tree.get_var(assignment), tree);
        push(&mut b, var.as_str());
    }
    proof {
        let sets = arg_sets_text(tree, context.addr(), *fnc, call.arguments@, call.arguments@.len() as int);
        match call.assignment {
            Some(v) => {
                assert(b@ =~= sets + "jns "@ + fnc_name_text(*fnc) + ("\nstore "@ + var_text(
                    tree,
                    tree.spec_get_var(v),
                )));
            },
            None => {
                assert(b@ =~= sets + "jns "@ + fnc_name_text(*fnc) + Seq::<char>::empty());
            },
        }
    }
    collapse(b)
}

} // verus!

verus! {

/// The position of the function of this name.
pub open spec fn fn_named(tree: &ProgramTree, name: Seq<char>) -> int {
    choose|i: int| 0 <= i < tree.functions@.len() && tree.functions@[i].name@ == name
}

/// What code generation records as it goes: the next label number, the
/// flag cells and the address cells.
pub struct Gen {
    pub counter: usize,
    pub flags: Seq<(Seq<char>, usize)>,
    pub addrs: Seq<(usize, usize)>,
}

impl CompilerContext {
    pub open spec fn gen(&self) -> Gen {
        Gen {
            counter: self.element_counter,
            flags: self.flags@.map_values(|p: (String, usize)| (p.0@, p.1)),
            addrs: self.addrs@,
        }
    }
}

/// A piece appended as its own line; an empty piece adds nothing.
pub open spec fn add_line(t: Seq<char>, piece: Seq<char>) -> Seq<char> {
    if piece.len() == 0 {
        t
    } else {
        t + piece + seq!['\n']
    }
}

/// The line after text `t`, where `t` starts at line `lines`.
pub open spec fn line_after(t: Seq<char>, lines: usize) -> usize {
    capped((capped(count_nl(t)) + lines) as nat)
}

/// The stack helper of this name: `push`, `pop` or `stack_return`.
fn stack_helper<'a>(tree: &'a ProgramTree, name: &str) -> (r: &'a Function)
    requires
        tree.wf(),
        tree.uses_stack(),
        name@ == push_name() || name@ == pop_name() || name@ == stack_return_name(),
    ensures
        r.id.0 < tree.functions@.len(),
        *r == tree.functions@[r.id.0 as int],
        r.name@ == name@,
        !r.is_stack,
        r.args == if name@ == pop_name() {
            0usize
        } else {
            1usize
        },
        r.args <= r.locals@.len(),
        r.id.0 == fn_named(tree, name@),
{
    let ghost args: nat = if name@ == pop_name() {
        0
    } else {
        1
    };
    assert(tree.has_plain_fn(name@, args));
    let ghost w = choose|f: int|
        0 <= f < tree.functions@.len() && (#[trigger] tree.functions@[f]).name@ == name@
            && tree.functions@[f].args == args && !tree.functions@[f].is_stack;
    match tree.find_fnc_index(name) {
        Some(i) => {
            proof {
                if i != w {
                    assert(tree.functions@[i as int].name@ != tree.functions@[w].name@);
                }
                let c = fn_named(tree, name@);
                if c != i {
                    assert(tree.functions@[i as int].name@ != tree.functions@[c].name@);
                }
                assert(function_ids_ok(tree.functions@, i as int));
            }
            &tree.functions[i]
        },
        None => {
            proof {
                assert(tree.functions@[w].name@ != name@);
            }
            unreached()
        },
    }
}

pub open spec fn reveal_helper_names() -> bool {
    &&& "push"@ == push_name()
    &&& "pop"@ == pop_name()
    &&& "stack_return"@ == stack_return_name()
}

proof fn lemma_helper_names()
    ensures
        reveal_helper_names(),
{
    reveal_strlit("push");
    reveal_strlit("pop");
    reveal_strlit("stack_return");
    assert("push"@ =~= push_name());
    assert("pop"@ =~= pop_name());
    assert("stack_return"@ =~= stack_return_name());
}

/// What code generation asks of the context: a well-formed tree whose every
/// variable has its cell's line recorded.
pub open spec fn ready(tree: &ProgramTree, context: &CompilerContext) -> bool {
    tree.wf() && context.covers(tree)
}

/// `b` is `a` with more flag and address cells and a later counter.
pub open spec fn context_grows(a: &CompilerContext, b: &CompilerContext) -> bool {
    &&& b.global_addresses == a.global_addresses
    &&& b.local_addresses == a.local_addresses
    &&& a.flags@.len() <= b.flags@.len()
    &&& a.addrs@.len() <= b.addrs@.len()
    &&& forall|k: int| 0 <= k < a.flags@.len() ==> #[trigger] b.flags@[k] == a.flags@[k]
    &&& forall|k: int| 0 <= k < a.addrs@.len() ==> #[trigger] b.addrs@[k] == a.addrs@[k]
}

pub proof fn lemma_context_grows_trans(a: &CompilerContext, b: &CompilerContext, c: &CompilerContext)
    requires
        context_grows(a, b),
        context_grows(b, c),
    ensures
        context_grows(a, c),
{
    assert forall|k: int| 0 <= k < a.flags@.len() implies #[trigger] c.flags@[k] == a.flags@[k] by {
        assert(b.flags@[k] == a.flags@[k]);
    };
    assert forall|k: int| 0 <= k < a.addrs@.len() implies #[trigger] c.addrs@[k] == a.addrs@[k] by {
        assert(b.addrs@[k] == a.addrs@[k]);
    };
}

/// Pushes of the first `n` locals of `from`, each with a call of `push`.
pub open spec fn push_locals_text(
    tree: &ProgramTree,
    ad: AddrMap,
    t: Seq<char>,
    push: FunctionId,
    from: Function,
    n: int,
) -> Seq<char>
    decreases n,
{
    if n <= 0 {
        t
    } else {
        add_line(
            push_locals_text(tree, ad, t, push, from, n - 1),
            call_text(tree, ad, push, seq![ArgumentCallArg::Reference(from.locals@[n - 1].id)], None),
        )
    }
}

/// Pushes of the first `n` arguments, each with a call of `push`.
pub open spec fn push_args_text(
    tree: &ProgramTree,
    ad: AddrMap,
    t: Seq<char>,
    push: FunctionId,
    args: Seq<ArgumentCallArg>,
    n: int,
) -> Seq<char>
    decreases n,
{
    if n <= 0 {
        t
    } else {
        add_line(
            push_args_text(tree, ad, t, push, args, n - 1),
            call_text(tree, ad, push, seq![args[n - 1]], None),
        )
    }
}

/// Pops into the last `m` locals of `from`, the last local first.
pub open spec fn pop_locals_text(
    tree: &ProgramTree,
    ad: AddrMap,
    t: Seq<char>,
    pop: FunctionId,
    from: Function,
    m: int,
) -> Seq<char>
    decreases m,
{
    if m <= 0 {
        t
    } else {
        add_line(
            pop_locals_text(tree, ad, t, pop, from, m - 1),
            call_text(tree, ad, pop, Seq::empty(), Some(from.locals@[from.locals@.len() - m].id)),
        )
    }
}

/// The text of the lines of a stack call up to its jump.
pub open spec fn stack_call_head(tree: &ProgramTree, ad: AddrMap, g: Gen, c: FunctionCall) -> Seq<char> {
    let push = tree.functions@[fn_named(tree, push_name())];
    let from = tree.functions@[c.from.0 as int];
    let part1 = if from.is_stack {
        push_locals_text(tree, ad, Seq::empty(), push.id, from, from.locals@.len() as int)
    } else {
        Seq::empty()
    };
    let part2 = add_line(part1, "load addr_"@ + nat_text(g.counter as nat));
    let part3 = add_line(part2, "store "@ + var_text(tree, push.locals@[0]));
    let part4 = add_line(part3, "jns function_push"@);
    let part5 = push_args_text(tree, ad, part4, push.id, c.arguments@, c.arguments@.len() as int);
    add_line(part5, "jns "@ + fnc_name_text(tree.functions@[c.fnc_id.0 as int]))
}

/// A call of a stack function whose text starts at line `lines`, and what
/// it records: the label number it takes, and the cell `addr_<number>` that
/// holds the line after its jump.
pub open spec fn stack_call_text(
    tree: &ProgramTree,
    ad: AddrMap,
    g: Gen,
    c: FunctionCall,
    lines: usize,
) -> (Seq<char>, Gen) {
    let pop = tree.functions@[fn_named(tree, pop_name())];
    let from = tree.functions@[c.from.0 as int];
    let part6 = stack_call_head(tree, ad, g, c);
    let part7 = add_line(part6, "load var_return\nstore var_return_saver"@);
    let part8 = if from.is_stack {
        pop_locals_text(tree, ad, part7, pop.id, from, from.locals@.len() as int)
    } else {
        part7
    };
    let part9 = add_line(part8, "load var_return_saver\nstore var_return"@);
    let part10 = match c.assignment {
        Some(v) => add_line(part9, "store "@ + var_text(tree, tree.spec_get_var(v))),
        None => part9,
    };
    (
        strip_nl(part10),
        Gen {
            counter: capped((g.counter + 1) as nat),
            flags: g.flags,
            addrs: g.addrs.push((g.counter, line_after(part6, lines))),
        },
    )
}

/// A call of a stack function at line `lines`: the caller's locals (where the
/// caller is a stack function) and the return address `addr_<counter>` are
/// pushed, then the arguments; after the jump the locals come back and the
/// result is kept. The `addr_<counter>` cell is recorded with the line that
/// follows the jump.
#[verifier::rlimit(100)]
fn get_stack_function_call_text(
    master_call: &FunctionCall,
    tree: &ProgramTree,
    context: &mut CompilerContext,
    lines: usize,
) -> (r: String)
    requires
        ready(tree, old(context)),
        call_ok(tree.shape(), master_call.from.0 as int, *master_call),
        tree.functions@[master_call.fnc_id.0 as int].is_stack,
    ensures
        ready(tree, final(context)),
        context_grows(old(context), final(context)),
        (r@, final(context).gen()) == stack_call_text(
            tree,
            old(context).addr(),
            old(context).gen(),
            *master_call,
            lines,
        ),
{
    proof {
        lemma_helper_names();
        assert(tree.uses_stack());
        lemma_call_ok_valid(tree, context, master_call.from.0 as int, *master_call);
    }
    let ghost ad = context.addr();
    let ghost g0 = context.gen();
    let counter = context.push_counter();
    let push_func = stack_helper(tree, "push");
    let pop_func = stack_helper(tree, "pop");
    proof {
        assert(function_ids_ok(tree.functions@, push_func.id.0 as int));
        assert(function_ids_ok(tree.functions@, master_call.from.0 as int));
    }
    let arg_name = get_var_text(&push_func.locals[0], tree);
    let mut builder = Builder::new();
    let from = tree.get_fnc(master_call.from);
    let from_id = from.id;
    let from_stack = from.is_stack;
    if from_stack {
        // the caller's locals survive the call on the stack
        let mut j: usize = 0;
        while j < from.locals.len()
            invariant
                ready(tree, context),
                context.addr() == ad,
                builder.wf(),
                j <= from.locals@.len(),
                builder.text() == push_locals_text(
                    tree,
                    ad,
                    Seq::empty(),
                    push_func.id,
                    *from,
                    j as int,
                ),
                master_call.from.0 < tree.functions@.len(),
                *from == tree.functions@[master_call.from.0 as int],
                function_ids_ok(tree.functions@, master_call.from.0 as int),
                push_func.id.0 < tree.functions@.len(),
                *push_func == tree.functions@[push_func.id.0 as int],
                push_func.args == 1,
                push_func.args <= push_func.locals@.len(),
            decreases from.locals@.len() - j,
        {
            let mut args: Vec<ArgumentCallArg> = Vec::new();
            args.push(ArgumentCallArg::Reference(from.locals[j].id));
            assert(args@ =~= seq![ArgumentCallArg::Reference(from.locals@[j as int].id)]);
            let push_call = FunctionCall::new(push_func.id, args, None, from_id);
            let t = get_normal_function_call_text(&push_call, tree, context);
            builder.push_line_smart(t.as_str());
            j += 1;
        }
    }
    let ghost part1 = builder.text();
    assert(!from_stack ==> part1 =~= Seq::<char>::empty());
    // the return address
    let mut load_addr: Vec<char> = Vec::new();
    push(&mut load_addr, "load addr_");
    push_nat(&mut load_addr, counter as u64);
    let load_addr = collapse(load_addr);
    builder.push_line_smart(load_addr.as_str());
    let mut store_addr: Vec<char> = Vec::new();
    push(&mut store_addr, "store ");
    push(&mut store_addr, arg_name.as_str());
    let store_addr = collapse(store_addr);
    builder.push_line_smart(store_addr.as_str());
    builder.push_line_smart("jns function_push");
    // the arguments
    let ghost part4 = builder.text();
    let mut k: usize = 0;
    while k < master_call.arguments.len()
        invariant
            ready(tree, context),
            context.addr() == ad,
            builder.wf(),
            k <= master_call.arguments@.len(),
            builder.text() == push_args_text(
                tree,
                ad,
                part4,
                push_func.id,
                master_call.arguments@,
                k as int,
            ),
            call_valid(tree, context, *master_call),
            push_func.id.0 < tree.functions@.len(),
            *push_func == tree.functions@[push_func.id.0 as int],
            push_func.args == 1,
            push_func.args <= push_func.locals@.len(),
        decreases master_call.arguments@.len() - k,
    {
        let mut args: Vec<ArgumentCallArg> = Vec::new();
        args.push(master_call.arguments[k].duplicate());
        assert(args@ =~= seq![master_call.arguments@[k as int]]);
        let push_call = FunctionCall::new(push_func.id, args, None, from_id);
        let t = get_normal_function_call_text(&push_call, tree, context);
        builder.push_line_smart(t.as_str());
        k += 1;
    }
    // the call, and the line to come back to
    let callee = get_real_fnc_name_text(tree.get_fnc(master_call.fnc_id));
    let mut jump: Vec<char> = Vec::new();
    push(&mut jump, "jns ");
    push(&mut jump, callee.as_str());
    let jump = collapse(jump);
    builder.push_line_smart(jump.as_str());
    let ghost part6 = builder.text();
    proof {
        assert(push_func.id.0 == fn_named(tree, push_name()));
        assert(part6 == stack_call_head(tree, ad, g0, *master_call));
    }
    context.addrs.push((counter, builder.count().saturating_add(lines)));
    // restoring the locals would lose the result
    builder.push_line_smart("load var_return\nstore var_return_saver");
    let ghost part7 = builder.text();
    if from_stack {
        let mut j: usize = from.locals.len();
        while j > 0
            invariant
                ready(tree, context),
                context.addr() == ad,
                builder.wf(),
                j <= from.locals@.len(),
                builder.text() == pop_locals_text(
                    tree,
                    ad,
                    part7,
                    pop_func.id,
                    *from,
                    from.locals@.len() - j,
                ),
                master_call.from.0 < tree.functions@.len(),
                *from == tree.functions@[master_call.from.0 as int],
                function_ids_ok(tree.functions@, master_call.from.0 as int),
                pop_func.id.0 < tree.functions@.len(),
                *pop_func == tree.functions@[pop_func.id.0 as int],
                pop_func.args == 0,
            decreases j,
        {
            j -= 1;
            let pop_call = FunctionCall::new(pop_func.id, Vec::new(), Some(from.locals[j].id), from_id);
            assert(pop_call.arguments@ =~= Seq::<ArgumentCallArg>::empty());
            let t = get_normal_function_call_text(&pop_call, tree, context);
            builder.push_line_smart(t.as_str());
        }
    }
    builder.push_line_smart("load var_return_saver\nstore var_return");
    if let Some(assignment) = master_call.assignment {
        let t = get_store_text(assignment, tree);
        builder.push_line_smart(t.as_str());
    }
    proof {
        assert(pop_func.id.0 == fn_named(tree, pop_name()));
        assert(context.gen().flags =~= g0.flags);
        assert(context.gen().addrs =~= g0.addrs.push((g0.counter, line_after(part6, lines))));
    }
    builder.collapse_flat()
}

pub open spec fn opt_arg(o: Option<&ArgumentCallArg>) -> Option<ArgumentCallArg> {
    match o {
        Some(v) => Some(*v),
        None => None,
    }
}

/// The return from a function: for one that is no stack function, the value
/// into `var_return` and the jump back; for a stack function, a call of
/// `stack_return` with the value.
pub open spec fn return_text(
    tree: &ProgramTree,
    ad: AddrMap,
    fnc: Function,
    ret_val: Option<ArgumentCallArg>,
) -> Seq<char> {
    if !fnc.is_stack {
        let load = match ret_val {
            Some(v) => load_text(tree, ad, v) + "\n"@,
            None => Seq::empty(),
        };
        load + "store "@ + var_text(tree, tree.globals@[1]) + "\njumpI "@ + fnc_name_text(fnc)
    } else {
        call_text(
            tree,
            ad,
            tree.functions@[fn_named(tree, stack_return_name())].id,
            match ret_val {
                Some(v) => seq![v],
                None => Seq::empty(),
            },
            None,
        )
    }
}

/// The return from function `fnc`: for a function that is no stack function,
/// the value into `var_return` and the jump back; for a stack function, a
/// call of `stack_return`.
pub fn get_function_return_text(
    fnc: &Function,
    ret_val: Option<&ArgumentCallArg>,
    tree: &ProgramTree,
    context: &CompilerContext,
) -> (r: String)
    requires
        ready(tree, context),
        fnc.id.0 < tree.functions@.len(),
        *fnc == tree.functions@[fnc.id.0 as int],
        ret_val matches Some(v) ==> arg_valid(tree, context, *v),
    ensures
        r@ == return_text(tree, context.addr(), *fnc, opt_arg(ret_val)),
{
    if !fnc.is_stack {
        let mut b: Vec<char> = Vec::new();
        if let Some(val) = ret_val {
            let load = get_load_from_arg_text(val, tree, context);
            push(&mut b, load.as_str());
            push(&mut b, "\n");
        }
        let ghost head = b@;
        let ret_var = tree.get_ret_var();
        proof {
            assert(tree.globals@[1].id.raw == 1);
        }
        let store = get_store_text(ret_var.id, tree);
        push(&mut b, store.as_str());
        push(&mut b, "\njumpI ");
        let name = get_real_fnc_name_text(fnc);
        push(&mut b, name.as_str());
        proof {
            assert(tree.spec_get_var(ret_var.id) == tree.globals@[1]);
            assert(b@ =~= head + "store "@ + var_text(tree, tree.globals@[1]) + "\njumpI "@
                + fnc_name_text(*fnc));
            match ret_val {
                Some(v) => {
                    assert(head =~= load_text(tree, context.addr(), *v) + "\n"@);
                },
                None => {
                    assert(head =~= Seq::<char>::empty());
                },
            }
        }
        collapse(b)
    } else {
        proof {
            lemma_helper_names();
            assert(tree.uses_stack());
        }
        let stack_fnc = stack_helper(tree, "stack_return");
        let mut args: Vec<ArgumentCallArg> = Vec::new();
        if let Some(val) = ret_val {
            args.push(val.duplicate());
            assert(args@ =~= seq![*val]);
        } else {
            assert(args@ =~= Seq::<ArgumentCallArg>::empty());
        }
        let call = FunctionCall::new(stack_fnc.id, args, None, fnc.id);
        get_normal_function_call_text(&call, tree, context)
    }
}

} // verus!

verus! {

/// Inline code, an assignment, a return or a call, at line `lines`; `None`
/// for a flag or an `if`.
pub open spec fn simple_text(
    tree: &ProgramTree,
    ad: AddrMap,
    g: Gen,
    st: Statement,
    lines: usize,
) -> Option<(Seq<char>, Gen)> {
    match st {
        Statement::Ret(r) => Some((return_text(tree, ad, tree.functions@[r.fnc.0 as int], r.ret_val), g)),
        Statement::Inline(text) => Some((crate::lexer::trim(text@), g)),
        Statement::FunctionCall(c) => if tree.functions@[c.fnc_id.0 as int].is_stack {
            Some(stack_call_text(tree, ad, g, c, lines))
        } else {
            Some((normal_call_text(tree, ad, c), g))
        },
        Statement::Assignment(a) => Some(
            (
                load_text(tree, ad, a.right) + "\nstore "@ + var_text(tree, tree.spec_get_var(a.left)),
                g,
            ),
        ),
        _ => None,
    }
}

/// The statement resolves inside one of the tree's functions.
pub open spec fn stmt_in_tree(tree: &ProgramTree, st: Statement) -> bool {
    exists|f: int| 0 <= f < tree.functions@.len() && stmt_ok(tree.shape(), f, st)
}

/// Inline code, an assignment, a return or a call; `None` for a flag or an `if`.
pub fn compile_simple(
    st: &Statement,
    tree: &ProgramTree,
    context: &mut CompilerContext,
    lines: usize,
) -> (r: Option<String>)
    requires
        ready(tree, old(context)),
        stmt_in_tree(tree, *st),
    ensures
        ready(tree, final(context)),
        context_grows(old(context), final(context)),
        match simple_text(tree, old(context).addr(), old(context).gen(), *st, lines) {
            Some((t, g)) => r is Some && r->Some_0@ == t && final(context).gen() == g,
            None => r is None && final(context).gen() == old(context).gen(),
        },
{
    let ghost f = choose|f: int| 0 <= f < tree.functions@.len() && stmt_ok(tree.shape(), f, *st);
    match st {
        Statement::Ret(ret) => {
            let fnc = tree.get_fnc(ret.fnc);
            proof {
                assert(function_ids_ok(tree.functions@, f));
            }
            let val = match &ret.ret_val {
                Some(v) => Some(v),
                None => None,
            };
            assert(opt_arg(val) == ret.ret_val);
            Some(get_function_return_text(fnc, val, tree, context))
        },
        Statement::Inline(inline) => {
            let chars = crate::string_builder::chars_of(inline.as_str());
            Some(collapse(crate::lexer::trim_chars(&chars)))
        },
        Statement::FunctionCall(call) => {
            let fnc = tree.get_fnc(call.fnc_id);
            if fnc.is_stack {
                Some(get_stack_function_call_text(call, tree, context, lines))
            } else {
                proof {
                    lemma_call_ok_valid(tree, context, f, *call);
                }
                Some(get_normal_function_call_text(call, tree, context))
            }
        },
        Statement::Assignment(ass) => {
            proof {
                lemma_var_in_tree(tree, ass.left);
            }
            Some(get_set_from_arg(tree.get_var(ass.left), &ass.right, tree, context))
        },
        _ => None,
    }
}

fn push_label(b: &mut Vec<char>, prefix: &str, counter: usize, suffix: &str)
    ensures
        final(b)@ == old(b)@ + label(prefix@, counter, suffix@),
{
    push(b, prefix);
    push_nat(b, counter as u64);
    push(b, suffix);
    assert(final(b)@ =~= old(b)@ + label(prefix@, counter, suffix@));
}

fn label_text(prefix: &str, counter: usize, suffix: &str) -> (r: String)
    ensures
        r@ == label(prefix@, counter, suffix@),
{
    let mut b: Vec<char> = Vec::new();
    push_label(&mut b, prefix, counter, suffix);
    assert(b@ =~= label(prefix@, counter, suffix@));
    collapse(b)
}

/// A name made of a prefix, a number and a suffix.
pub open spec fn label(prefix: Seq<char>, counter: usize, suffix: Seq<char>) -> Seq<char> {
    prefix + nat_text(counter as nat) + suffix
}

/// The `skipcond` operand that skips the next instruction when the
/// accumulator is 0, below 0 or above 0.
pub open spec fn cond_text(c: ConditionKind) -> Seq<char> {
    match c {
        ConditionKind::Eq => "400"@,
        ConditionKind::Less => "000"@,
        ConditionKind::More => "800"@,
    }
}

/// The lines of the first `n` statements of a block of function `id` whose
/// text starts at line `lines`, and the state after them.
pub open spec fn block_fold(
    tree: &ProgramTree,
    ad: AddrMap,
    g: Gen,
    b: Seq<Statement>,
    lines: usize,
    id: FunctionId,
    n: int,
) -> (Seq<char>, Gen)
    decreases b, n,
{
    if n <= 0 || n > b.len() {
        (Seq::empty(), g)
    } else {
        let (t, g1) = block_fold(tree, ad, g, b, lines, id, n - 1);
        let at = line_after(t, lines);
        match simple_text(tree, ad, g1, b[n - 1], at) {
            Some((s, g2)) => (add_line(t, s), g2),
            None => {
                let (a, g2) = advance_text(tree, ad, g1, b[n - 1], at, id);
                (
                    match a {
                        Some(x) => add_line(t, x),
                        None => t,
                    },
                    g2,
                )
            },
        }
    }
}

/// The code of a block of function `id` whose text starts at line `lines`.
pub open spec fn block_text(
    tree: &ProgramTree,
    ad: AddrMap,
    g: Gen,
    b: Seq<Statement>,
    lines: usize,
    id: FunctionId,
) -> (Seq<char>, Gen) {
    let (t, g1) = block_fold(tree, ad, g, b, lines, id, b.len() as int);
    (strip_nl(t), g1)
}

/// The lines of an `if` up to the label of its true block.
pub open spec fn if_head(tree: &ProgramTree, ad: AddrMap, i: If, c: usize) -> Seq<char> {
    let jump_not = if i.if_false is Some {
        label("jump else_"@, c, ""@)
    } else {
        label("jump end_if_"@, c, ""@)
    };
    let part0 = add_line(
        Seq::empty(),
        load_text(tree, ad, i.b) + "\nstore "@ + var_text(tree, tree.globals@[0]),
    );
    let part1 = add_line(part0, load_text(tree, ad, i.a));
    let part2 = add_line(part1, "subt var__temp"@);
    let part3 = add_line(part2, "skipcond "@ + cond_text(i.cond));
    let part4 = add_line(part3, jump_not);
    let part5 = add_line(part4, label("jump if_"@, c, ""@));
    let part6 = add_line(part5, label("if_"@, c, ", store var__temp"@));
    part6
}

/// An `if` at line `line`: `A - B` in the accumulator, `skipcond`, a jump
/// to the else or end label and one to the true block, then the blocks,
/// each behind its label.
pub open spec fn if_text(
    tree: &ProgramTree,
    ad: AddrMap,
    g: Gen,
    i: If,
    line: usize,
    id: FunctionId,
) -> (Seq<char>, Gen)
    decreases i, 0int,
{
    let c = g.counter;
    let g1 = Gen { counter: capped((c + 1) as nat), flags: g.flags, addrs: g.addrs };
    let part6 = if_head(tree, ad, i, c);
    let (bt, g2) = block_fold(
        tree,
        ad,
        g1,
        i.if_true@,
        line_after(part6, line),
        id,
        i.if_true@.len() as int,
    );
    let part7 = add_line(part6, strip_nl(bt));
    let (part10, g3) = match i.if_false {
        Some(e) => {
            let part8 = add_line(part7, label("jump end_if_"@, c, ""@));
            let part9 = add_line(part8, label("else_"@, c, ", store var__temp"@));
            let (et, g3) = block_fold(
                tree,
                ad,
                g2,
                e@,
                line_after(part9, line),
                id,
                e@.len() as int,
            );
            (add_line(part9, strip_nl(et)), g3)
        },
        None => (part7, g2),
    };
    let part11 = add_line(part10, label("end_if_"@, c, ", store var__temp"@));
    (strip_nl(part11), g3)
}

/// A flag, which adds the cell `flag_<function>_<label>` for line `line`
/// and no code, or an `if` at line `line`; `None` for other statements.
pub open spec fn advance_text(
    tree: &ProgramTree,
    ad: AddrMap,
    g: Gen,
    st: Statement,
    line: usize,
    id: FunctionId,
) -> (Option<Seq<char>>, Gen)
    decreases st, 0int,
{
    match st {
        Statement::Flag(f) => (
            Some(Seq::empty()),
            Gen {
                counter: g.counter,
                flags: g.flags.push((tree.functions@[id.0 as int].name@ + "_"@ + f.label@, line)),
                addrs: g.addrs,
            },
        ),
        Statement::If(i) => {
            let (t, g1) = if_text(tree, ad, g, i, line, id);
            (Some(t), g1)
        },
        _ => (None, g),
    }
}

/// The lines of an `if` up to the label of its true block, see `if_head`.
fn if_head_builder(i: &If, tree: &ProgramTree, context: &CompilerContext, counter: usize) -> (r:
    Builder)
    requires
        ready(tree, context),
        arg_valid(tree, context, i.a),
        arg_valid(tree, context, i.b),
    ensures
        r.wf(),
        r.text() == if_head(tree, context.addr(), *i, counter),
{
    let If { a, b, if_true: _, if_false: else_block, cond } = i;
    let mut builder = Builder::new();
    let cond_number = match cond {
        ConditionKind::Eq => "400",
        ConditionKind::Less => "000",
        ConditionKind::More => "800",
    };
    let contains_else = else_block.is_some();
    let jump_if_not = if contains_else {
        label_text("jump else_", counter, "")
    } else {
        label_text("jump end_if_", counter, "")
    };
    let jump_if_ok = label_text("jump if_", counter, "");
    let temp = tree.get_temp_var();
    proof {
        assert(tree.globals@[0].id.kind == VariableType::Global);
    }
    // the accumulator gets a - b
    let set_b = get_set_from_arg(temp, b, tree, context);
    builder.push_line_smart(set_b.as_str());
    let load_a = get_load_from_arg_text(a, tree, context);
    builder.push_line_smart(load_a.as_str());
    builder.push_line_smart("subt var__temp");
    let mut skip: Vec<char> = Vec::new();
    push(&mut skip, "skipcond ");
    push(&mut skip, cond_number);
    let skip = collapse(skip);
    builder.push_line_smart(skip.as_str());
    builder.push_line_smart(jump_if_not.as_str());
    builder.push_line_smart(jump_if_ok.as_str());
    let label_if = label_text("if_", counter, ", store var__temp");
    builder.push_line_smart(label_if.as_str());
    builder
}

/// An `if` at line `line`, see `if_text`.
#[verifier::rlimit(50)]
fn compile_if(
    i: &If,
    tree: &ProgramTree,
    context: &mut CompilerContext,
    line: usize,
    id: FunctionId,
) -> (r: String)
    requires
        ready(tree, old(context)),
        id.0 < tree.functions@.len(),
        stmt_ok(tree.shape(), id.0 as int, Statement::If(*i)),
    ensures
        ready(tree, final(context)),
        context_grows(old(context), final(context)),
        (r@, final(context).gen()) == if_text(
            tree,
            old(context).addr(),
            old(context).gen(),
            *i,
            line,
            id,
        ),
    decreases i,
{
    let ghost c0 = *context;
    let counter = context.push_counter();
    let mut builder = if_head_builder(i, tree, context, counter);
    let ghost c1 = *context;
    let true_text = compile_block(
        &i.if_true,
        tree,
        context,
        line.saturating_add(builder.count()),
        id,
    );
    builder.push_line_smart(true_text.as_str());
    let ghost c2 = *context;
    proof {
        lemma_context_grows_trans(&c0, &c1, &c2);
    }
    if let Some(else_block) = &i.if_false {
        let jump_end = label_text("jump end_if_", counter, "");
        builder.push_line_smart(jump_end.as_str());
        let label_else = label_text("else_", counter, ", store var__temp");
        builder.push_line_smart(label_else.as_str());
        let else_text = compile_block(
            else_block,
            tree,
            context,
            line.saturating_add(builder.count()),
            id,
        );
        builder.push_line_smart(else_text.as_str());
        proof {
            lemma_context_grows_trans(&c0, &c2, context);
        }
    }
    let label_end = label_text("end_if_", counter, ", store var__temp");
    builder.push_line_smart(label_end.as_str());
    builder.collapse_flat()
}

/// A flag, which records its line, or an `if`.
pub fn compile_advance(
    st: &Statement,
    tree: &ProgramTree,
    context: &mut CompilerContext,
    line: usize,
    id: FunctionId,
) -> (r: Option<String>)
    requires
        ready(tree, old(context)),
        id.0 < tree.functions@.len(),
        stmt_ok(tree.shape(), id.0 as int, *st),
    ensures
        ready(tree, final(context)),
        context_grows(old(context), final(context)),
        (match r {
            Some(s) => Some(s@),
            None => None,
        }, final(context).gen()) == advance_text(
            tree,
            old(context).addr(),
            old(context).gen(),
            *st,
            line,
            id,
        ),
    decreases st,
{
    let ghost ad = context.addr();
    let ghost g0 = context.gen();
    match st {
        Statement::Flag(flag) => {
            let fnc = tree.get_fnc(id);
            let mut name: Vec<char> = Vec::new();
            push(&mut name, fnc.name.as_str());
            push(&mut name, "_");
            push(&mut name, flag.label.as_str());
            let ghost before = *context;
            let name = collapse(name);
            context.flags.push((name, line));
            proof {
                assert forall|k: int| 0 <= k < before.flags@.len() implies #[trigger] context.flags@[k]
                    == before.flags@[k] by {}
                assert(name@ =~= tree.functions@[id.0 as int].name@ + "_"@ + flag.label@);
                assert(context.gen().flags =~= g0.flags.push(
                    (tree.functions@[id.0 as int].name@ + "_"@ + flag.label@, line),
                ));
            }
            let r = String::new();
            assert(r@ =~= Seq::<char>::empty());
            Some(r)
        },
        Statement::If(i) => {
            let t = compile_if(i, tree, context, line, id);
            Some(t)
        },
        _ => None,
    }
}

/// The code of a block, whose first line stands at line `lines`.
pub fn compile_block(
    block: &Vec<Statement>,
    tree: &ProgramTree,
    context: &mut CompilerContext,
    lines: usize,
    id: FunctionId,
) -> (r: String)
    requires
        ready(tree, old(context)),
        id.0 < tree.functions@.len(),
        block_ok(tree.shape(), id.0 as int, block@),
    ensures
        ready(tree, final(context)),
        context_grows(old(context), final(context)),
        (r@, final(context).gen()) == block_text(
            tree,
            old(context).addr(),
            old(context).gen(),
            block@,
            lines,
            id,
        ),
    decreases block@,
{
    let ghost ad = context.addr();
    let ghost g0 = context.gen();
    let mut builder = Builder::new();
    let mut k: usize = 0;
    while k < block.len()
        invariant
            ready(tree, context),
            context_grows(old(context), context),
            context.addr() == ad,
            id.0 < tree.functions@.len(),
            block_ok(tree.shape(), id.0 as int, block@),
            builder.wf(),
            k <= block@.len(),
            (builder.text(), context.gen()) == block_fold(tree, ad, g0, block@, lines, id, k as int),
        decreases block@.len() - k,
    {
        let statement = &block[k];
        assert(stmt_ok(tree.shape(), id.0 as int, block@[k as int]));
        let ghost c0 = *context;
        let at = builder.count().saturating_add(lines);
        let simple_maybe = compile_simple(statement, tree, context, at);
        if let Some(simple) = simple_maybe {
            builder.push_line_smart(simple.as_str());
        } else {
            let ghost c1 = *context;
            assert(decreases_to!(block@ => block@[k as int]));
            let adv_maybe = compile_advance(statement, tree, context, at, id);
            proof {
                lemma_context_grows_trans(&c0, &c1, context);
            }
            if let Some(adv) = adv_maybe {
                builder.push_line_smart(adv.as_str());
            }
        }
        proof {
            lemma_context_grows_trans(old(context), &c0, context);
        }
        k += 1;
    }
    builder.collapse_flat()
}

/// The resets of the locals of `f` from its first local that is no argument
/// up to local `j`.
pub open spec fn reset_locals_text(tree: &ProgramTree, t: Seq<char>, f: Function, j: int) -> Seq<char>
    decreases j,
{
    if j <= f.args || j > f.locals@.len() {
        t
    } else {
        add_line(
            reset_locals_text(tree, t, f, j - 1),
            "load "@ + const_text(f.locals@[j - 1].default_value as int) + "\nstore "@ + var_text(
                tree,
                f.locals@[j - 1],
            ),
        )
    }
}

/// Pops into the last `m` arguments of `f`, the last argument first.
pub open spec fn pop_args_text(
    tree: &ProgramTree,
    ad: AddrMap,
    t: Seq<char>,
    pop: FunctionId,
    f: Function,
    m: int,
) -> Seq<char>
    decreases m,
{
    if m <= 0 {
        t
    } else {
        add_line(
            pop_args_text(tree, ad, t, pop, f, m - 1),
            call_text(tree, ad, pop, Seq::empty(), Some(f.locals@[f.args - m].id)),
        )
    }
}

/// The code of function `fid`, whose text starts at line `line`.
pub open spec fn function_text(
    tree: &ProgramTree,
    ad: AddrMap,
    g: Gen,
    fid: FunctionId,
    line: usize,
) -> (Seq<char>, Gen) {
    let f = tree.functions@[fid.0 as int];
    let pop = tree.functions@[fn_named(tree, pop_name())].id;
    match f.content {
        None => (Seq::empty(), g),
        Some(content) => {
            let part0 = add_line(Seq::empty(), "function_"@ + f.name@ + ", DEC 0"@);
            let part1 = if f.is_stack {
                pop_args_text(tree, ad, part0, pop, f, f.args as int)
            } else {
                part0
            };
            let part2 = reset_locals_text(tree, part1, f, f.locals@.len() as int);
            let (part3, g1) = if content@.len() > 0 {
                let (bt, g1) = block_text(tree, ad, g, content@, line_after(part2, line), f.id);
                (add_line(part2, bt), g1)
            } else {
                (part2, g)
            };
            let part4 = if f.is_stack {
                add_line(add_line(part3, call_text(tree, ad, pop, Seq::empty(), None)), "jumpi var_return"@)
            } else {
                add_line(part3, return_text(tree, ad, f, None))
            };
            (strip_nl(part4), g1)
        },
    }
}

/// The code of one function, whose first line stands at line `line`: its
/// label cell, the resets of its locals (and, for a stack function, the pops
/// of its arguments), its body and its return. Nothing for a function without code.
pub fn compile_function(fnc: FunctionId, tree: &ProgramTree, context: &mut CompilerContext, line: usize) -> (r:
    String)
    requires
        ready(tree, old(context)),
        fnc.0 < tree.functions@.len(),
    ensures
        ready(tree, final(context)),
        context_grows(old(context), final(context)),
        (r@, final(context).gen()) == function_text(
            tree,
            old(context).addr(),
            old(context).gen(),
            fnc,
            line,
        ),
{
    let ghost ad = context.addr();
    let ghost g0 = context.gen();
    let f = tree.get_fnc(fnc);
    proof {
        assert(function_ids_ok(tree.functions@, fnc.0 as int));
        assert(tree.bodies_ok());
    }
    let content = match &f.content {
        None => {
            let r = String::new();
            assert(r@ =~= Seq::<char>::empty());
            return r;
        },
        Some(content) => content,
    };
    let mut builder = Builder::new();
    let mut head: Vec<char> = Vec::new();
    push(&mut head, "function_");
    push(&mut head, f.name.as_str());
    push(&mut head, ", DEC 0");
    assert(head@ =~= "function_"@ + f.name@ + ", DEC 0"@);
    let head = collapse(head);
    builder.push_line_smart(head.as_str());
    let ghost part0 = builder.text();
    assert(part0 == add_line(Seq::empty(), "function_"@ + f.name@ + ", DEC 0"@));
    let is_stack = f.is_stack;
    if is_stack {
        proof {
            lemma_helper_names();
            assert(tree.uses_stack());
        }
        let pop_fnc = stack_helper(tree, "pop");
        // the arguments come off the stack, last first
        let mut j: usize = f.args;
        while j > 0
            invariant
                ready(tree, context),
                context.addr() == ad,
                builder.wf(),
                j <= f.args,
                builder.text() == pop_args_text(tree, ad, part0, pop_fnc.id, *f, f.args - j),
                fnc.0 < tree.functions@.len(),
                *f == tree.functions@[fnc.0 as int],
                function_ids_ok(tree.functions@, fnc.0 as int),
                pop_fnc.id.0 < tree.functions@.len(),
                *pop_fnc == tree.functions@[pop_fnc.id.0 as int],
                pop_fnc.args == 0,
            decreases j,
        {
            j -= 1;
            let pop_call = FunctionCall::new(pop_fnc.id, Vec::new(), Some(f.locals[j].id), f.id);
            assert(pop_call.arguments@ =~= Seq::<ArgumentCallArg>::empty());
            let t = get_normal_function_call_text(&pop_call, tree, context);
            builder.push_line_smart(t.as_str());
        }
        proof {
            assert(pop_fnc.id.0 == fn_named(tree, pop_name()));
        }
    }
    let ghost part1 = builder.text();
    assert(!is_stack ==> part1 == part0);
    // locals start from their defaults on every entry
    let mut j: usize = f.args;
    while j < f.locals.len()
        invariant
            ready(tree, context),
            builder.wf(),
            f.args <= j <= f.locals@.len(),
            builder.text() == reset_locals_text(tree, part1, *f, j as int),
            fnc.0 < tree.functions@.len(),
            *f == tree.functions@[fnc.0 as int],
            function_ids_ok(tree.functions@, fnc.0 as int),
        decreases f.locals@.len() - j,
    {
        let var = &f.locals[j];
        let t = get_set_var_to_num_text(var, var.default_value, tree);
        builder.push_line_smart(t.as_str());
        j += 1;
    }
    let ghost part2 = builder.text();
    assert(f.id == fnc);
    assert(context.gen() == g0);
    assert(context.addr() == ad);
    let ghost c_before = *context;
    if content.len() > 0 {
        let at = builder.count().saturating_add(line);
        let body = compile_block(content, tree, context, at, f.id);
        builder.push_line_smart(body.as_str());
        assert(at == line_after(part2, line));
    }
    let ghost part3 = builder.text();
    let ghost g1 = context.gen();
    assert(context.addr() == ad);
    proof {
        if content@.len() > 0 {
            let (bt, gb) = block_text(tree, ad, g0, content@, line_after(part2, line), f.id);
            assert(part3 == add_line(part2, bt));
            assert(g1 == gb);
        } else {
            assert(part3 == part2);
            assert(g1 == g0);
        }
    }
    if is_stack {
        proof {
            lemma_helper_names();
            assert(tree.uses_stack());
        }
        let pop_fnc = stack_helper(tree, "pop");
        let pop_call = FunctionCall::new(pop_fnc.id, Vec::new(), None, f.id);
        assert(pop_call.arguments@ =~= Seq::<ArgumentCallArg>::empty());
        let t = get_normal_function_call_text(&pop_call, tree, context);
        builder.push_line_smart(t.as_str());
        builder.push_line_smart("jumpi var_return");
        proof {
            assert(pop_fnc.id.0 == fn_named(tree, pop_name()));
            assert(tree.functions@[fn_named(tree, pop_name())].id == pop_fnc.id);
            assert(builder.text() == add_line(
                add_line(part3, call_text(tree, ad, pop_fnc.id, Seq::empty(), None)),
                "jumpi var_return"@,
            ));
        }
    } else {
        let t = get_function_return_text(f, None, tree, context);
        builder.push_line_smart(t.as_str());
        assert(builder.text() == add_line(part3, return_text(tree, ad, *f, None)));
    }
    proof {
        if is_stack {
            assert(tree.uses_stack());
            let pop_i = fn_named(tree, pop_name());
            assert(part1 == pop_args_text(tree, ad, part0, tree.functions@[pop_i].id, *f, f.args as int));
        }
    }
    builder.collapse_flat()
}

/// The address that an argument `&name` loads.
pub open spec fn arg_addr(ad: AddrMap, a: ArgumentCallArg) -> Set<usize> {
    match a {
        ArgumentCallArg::GetAddress(v) => set![address_of(ad, v)],
        _ => Set::empty(),
    }
}

pub open spec fn args_addrs(ad: AddrMap, args: Seq<ArgumentCallArg>, n: int) -> Set<usize>
    decreases n,
{
    if n <= 0 || n > args.len() {
        Set::empty()
    } else {
        args_addrs(ad, args, n - 1) + arg_addr(ad, args[n - 1])
    }
}

/// The addresses that the arguments `&name` of a statement load.
pub open spec fn stmt_addrs(ad: AddrMap, s: Statement) -> Set<usize>
    decreases s, 0int,
{
    match s {
        Statement::Assignment(a) => arg_addr(ad, a.right),
        Statement::Ret(r) => match r.ret_val {
            Some(x) => arg_addr(ad, x),
            None => Set::empty(),
        },
        Statement::FunctionCall(c) => args_addrs(ad, c.arguments@, c.arguments@.len() as int),
        Statement::If(i) => arg_addr(ad, i.a) + arg_addr(ad, i.b) + block_addrs(
            ad,
            i.if_true@,
            i.if_true@.len() as int,
        ) + match i.if_false {
            Some(b) => block_addrs(ad, b@, b@.len() as int),
            None => Set::empty(),
        },
        _ => Set::empty(),
    }
}

pub open spec fn block_addrs(ad: AddrMap, b: Seq<Statement>, n: int) -> Set<usize>
    decreases b, n,
{
    if n <= 0 || n > b.len() {
        Set::empty()
    } else {
        block_addrs(ad, b, n - 1) + stmt_addrs(ad, b[n - 1])
    }
}

/// The addresses that the first `n` functions load with `&name`.
pub open spec fn fns_addrs(tree: &ProgramTree, ad: AddrMap, n: int) -> Set<usize>
    decreases n,
{
    if n <= 0 || n > tree.functions@.len() {
        Set::empty()
    } else {
        fns_addrs(tree, ad, n - 1) + match tree.functions@[n - 1].content {
            Some(b) => block_addrs(ad, b@, b@.len() as int),
            None => Set::empty(),
        }
    }
}

pub open spec fn taken_addrs(tree: &ProgramTree, ad: AddrMap) -> Set<usize> {
    fns_addrs(tree, ad, tree.functions@.len() as int)
}

fn collect_arg(a: &ArgumentCallArg, tree: &ProgramTree, context: &CompilerContext, acc: &mut Vec<usize>)
    requires
        context.covers(tree),
        arg_valid(tree, context, *a),
    ensures
        final(acc)@.to_set() == old(acc)@.to_set() + arg_addr(context.addr(), *a),
{
    if let ArgumentCallArg::GetAddress(id) = a {
        let address = match id.kind {
            VariableType::Global => context.global_addresses[id.raw],
            VariableType::Local(f) => context.local_addresses[f.0][id.raw],
        };
        let ghost before = acc@;
        assert(address == address_of(context.addr(), *id));
        acc.push(address);
        assert forall|y: usize| acc@.to_set().contains(y) <==> (before.to_set() + arg_addr(context.addr(), *a)).contains(y) by {
            if acc@.to_set().contains(y) {
                let m = choose|m: int| 0 <= m < acc@.len() && acc@[m] == y;
                if m < before.len() {
                    assert(before[m] == y);
                }
            }
            if before.to_set().contains(y) {
                let m = choose|m: int| 0 <= m < before.len() && before[m] == y;
                assert(acc@[m] == y);
            }
            if y == address {
                assert(acc@[before.len() as int] == y);
            }
        };
        assert(acc@.to_set() =~= before.to_set() + arg_addr(context.addr(), *a));
    } else {
        assert(acc@.to_set() =~= old(acc)@.to_set() + arg_addr(context.addr(), *a));
    }
}

fn collect_stmt(st: &Statement, tree: &ProgramTree, context: &CompilerContext, acc: &mut Vec<usize>, f: Ghost<int>)
    requires
        ready(tree, context),
        0 <= f@ < tree.functions@.len(),
        stmt_ok(tree.shape(), f@, *st),
    ensures
        final(acc)@.to_set() == old(acc)@.to_set() + stmt_addrs(context.addr(), *st),
    decreases st, 0int,
{
    let ghost ad = context.addr();
    let ghost a0 = acc@.to_set();
    match st {
        Statement::Assignment(a) => {
            collect_arg(&a.right, tree, context, acc);
        },
        Statement::Ret(r) => {
            if let Some(x) = &r.ret_val {
                collect_arg(x, tree, context, acc);
            } else {
                assert(acc@.to_set() =~= a0 + stmt_addrs(ad, *st));
            }
        },
        Statement::FunctionCall(c) => {
            let mut k: usize = 0;
            while k < c.arguments.len()
                invariant
                    ready(tree, context),
                    0 <= f@ < tree.functions@.len(),
                    call_ok(tree.shape(), f@, *c),
                    ad == context.addr(),
                    k <= c.arguments@.len(),
                    acc@.to_set() == a0 + args_addrs(ad, c.arguments@, k as int),
                decreases c.arguments@.len() - k,
            {
                assert(arg_ok(tree.shape(), f@, c.arguments@[k as int]));
                let ghost before = acc@.to_set();
                collect_arg(&c.arguments[k], tree, context, acc);
                assert(acc@.to_set() =~= a0 + args_addrs(ad, c.arguments@, k + 1));
                k += 1;
            }
        },
        Statement::If(i) => {
            collect_arg(&i.a, tree, context, acc);
            collect_arg(&i.b, tree, context, acc);
            let ghost a1 = acc@.to_set();
            collect_block(&i.if_true, tree, context, acc, f);
            let ghost a2 = acc@.to_set();
            if let Some(b) = &i.if_false {
                collect_block(b, tree, context, acc, f);
            }
            assert(acc@.to_set() =~= a0 + stmt_addrs(ad, *st));
        },
        _ => {
            assert(acc@.to_set() =~= a0 + stmt_addrs(ad, *st));
        },
    }
}

fn collect_block(b: &Vec<Statement>, tree: &ProgramTree, context: &CompilerContext, acc: &mut Vec<usize>, f: Ghost<int>)
    requires
        ready(tree, context),
        0 <= f@ < tree.functions@.len(),
        block_ok(tree.shape(), f@, b@),
    ensures
        final(acc)@.to_set() == old(acc)@.to_set() + block_addrs(context.addr(), b@, b@.len() as int),
    decreases b@, b@.len() + 1,
{
    let ghost ad = context.addr();
    let ghost a0 = acc@.to_set();
    let mut k: usize = 0;
    assert(a0 =~= a0 + block_addrs(ad, b@, 0));
    while k < b.len()
        invariant
            ready(tree, context),
            0 <= f@ < tree.functions@.len(),
            block_ok(tree.shape(), f@, b@),
            ad == context.addr(),
            k <= b@.len(),
            acc@.to_set() == a0 + block_addrs(ad, b@, k as int),
        decreases b@.len() - k,
    {
        assert(stmt_ok(tree.shape(), f@, b@[k as int]));
        assert(decreases_to!(b@ => b@[k as int]));
        collect_stmt(&b[k], tree, context, acc, f);
        assert(acc@.to_set() =~= a0 + block_addrs(ad, b@, k + 1));
        k += 1;
    }
}

/// The addresses that the program loads with `&name`.
fn collect_addresses(tree: &ProgramTree, context: &CompilerContext) -> (r: Vec<usize>)
    requires
        ready(tree, context),
    ensures
        r@.to_set() == taken_addrs(tree, context.addr()),
{
    let ghost ad = context.addr();
    let mut acc: Vec<usize> = Vec::new();
    assert(acc@.to_set() =~= fns_addrs(tree, ad, 0));
    let mut f: usize = 0;
    while f < tree.functions.len()
        invariant
            ready(tree, context),
            ad == context.addr(),
            f <= tree.functions@.len(),
            acc@.to_set() == fns_addrs(tree, ad, f as int),
        decreases tree.functions@.len() - f,
    {
        let ghost a0 = acc@.to_set();
        proof {
            assert(tree.bodies_ok());
        }
        match &tree.functions[f].content {
            Some(b) => {
                assert(block_ok(tree.shape(), f as int, b@));
                collect_block(b, tree, context, &mut acc, Ghost(f as int));
            },
            None => {},
        }
        assert(acc@.to_set() =~= fns_addrs(tree, ad, f + 1));
        f += 1;
    }
    acc
}

fn vec_has(v: &Vec<usize>, k: usize) -> (r: bool)
    ensures
        r == v@.contains(k),
{
    let mut j: usize = 0;
    while j < v.len()
        invariant
            j <= v@.len(),
            forall|m: int| 0 <= m < j ==> v@[m] != k,
        decreases v@.len() - j,
    {
        if v[j] == k {
            return true;
        }
        j += 1;
    }
    false
}

/// The cells of the first `n` flags.
pub open spec fn flags_fold(flags: Seq<(Seq<char>, usize)>, n: int) -> Seq<char>
    decreases n,
{
    if n <= 0 || n > flags.len() {
        Seq::empty()
    } else {
        add_line(
            flags_fold(flags, n - 1),
            "flag_"@ + flags[n - 1].0 + ", DEC "@ + nat_text(flags[n - 1].1 as nat),
        )
    }
}

/// After `t`, the cells of the first `n` return addresses.
pub open spec fn addrs_fold(t: Seq<char>, addrs: Seq<(usize, usize)>, n: int) -> Seq<char>
    decreases n,
{
    if n <= 0 || n > addrs.len() {
        t
    } else {
        add_line(
            addrs_fold(t, addrs, n - 1),
            label("addr_"@, addrs[n - 1].0, ", DEC "@) + nat_text(addrs[n - 1].1 as nat),
        )
    }
}

/// The flag cells, then the address cells.
pub open spec fn lower_text(g: Gen) -> Seq<char> {
    strip_nl(addrs_fold(flags_fold(g.flags, g.flags.len() as int), g.addrs, g.addrs.len() as int))
}

/// The flag cells, then the address cells.
fn compile_lower_kind_variables(context: &CompilerContext) -> (r: String)
    ensures
        r@ == lower_text(context.gen()),
{
    let ghost g = context.gen();
    let mut builder = Builder::new();
    let mut k: usize = 0;
    while k < context.flags.len()
        invariant
            builder.wf(),
            k <= context.flags@.len(),
            g == context.gen(),
            builder.text() == flags_fold(g.flags, k as int),
        decreases context.flags@.len() - k,
    {
        let el = &context.flags[k];
        let mut b: Vec<char> = Vec::new();
        push(&mut b, "flag_");
        push(&mut b, el.0.as_str());
        push(&mut b, ", DEC ");
        push_nat(&mut b, el.1 as u64);
        assert(g.flags[k as int] == (el.0@, el.1));
        assert(b@ =~= "flag_"@ + g.flags[k as int].0 + ", DEC "@ + nat_text(g.flags[k as int].1 as nat));
        let t = collapse(b);
        builder.push_line_smart(t.as_str());
        k += 1;
    }
    let ghost ft = builder.text();
    let mut k: usize = 0;
    while k < context.addrs.len()
        invariant
            builder.wf(),
            k <= context.addrs@.len(),
            g == context.gen(),
            ft == flags_fold(g.flags, g.flags.len() as int),
            builder.text() == addrs_fold(ft, g.addrs, k as int),
        decreases context.addrs@.len() - k,
    {
        let el = context.addrs[k];
        let mut b: Vec<char> = Vec::new();
        push_label(&mut b, "addr_", el.0, ", DEC ");
        push_nat(&mut b, el.1 as u64);
        assert(b@ =~= label("addr_"@, el.0, ", DEC "@) + nat_text(el.1 as nat));
        let t = collapse(b);
        builder.push_line_smart(t.as_str());
        k += 1;
    }
    builder.collapse_flat()
}

/// After `t`, the code of the first `n` functions, the text starting at line 0.
pub open spec fn functions_fold(tree: &ProgramTree, ad: AddrMap, g: Gen, t: Seq<char>, n: int) -> (
    Seq<char>,
    Gen,
)
    decreases n,
{
    if n <= 0 || n > tree.functions@.len() {
        (t, g)
    } else {
        let (part1, g1) = functions_fold(tree, ad, g, t, n - 1);
        let (ft, g2) = function_text(tree, ad, g1, FunctionId((n - 1) as usize), line_after(part1, 0));
        (add_line(part1, ft), g2)
    }
}

/// The listing of a program: `jns function_main`, `halt`, the cells of the
/// constants and variables, the code of each function, then the flag and
/// address cells.
pub open spec fn program_text(tree: &ProgramTree) -> Seq<char> {
    let part0 = add_line(add_line(Seq::empty(), "jns function_main"@), "halt"@);
    let part1 = add_line(part0, variables_text(tree));
    let ad = program_addrs(tree, line_after(part0, 0));
    let g0 = Gen { counter: 0, flags: Seq::empty(), addrs: Seq::empty() };
    let (part2, g) = functions_fold(tree, ad, g0, part1, tree.functions@.len() as int);
    strip_nl(add_line(part2, lower_text(g)))
}

/// Compiles a parsed program: `jns function_main`, `halt`, the cells of
/// constants and variables, each function's code, then the flag and address cells.
pub fn compile(tree: ProgramTree) -> (r: String)
    requires
        tree.wf(),
    ensures
        r@ == program_text(&tree),
        r@.len() >= 22,
        r@.subrange(0, 22) == "jns function_main\nhalt"@,
{
    let mut builder = Builder::new();
    let mut context = CompilerContext::new();
    builder.push_line_smart("jns function_main");
    builder.push_line_smart("halt");
    let ghost start = builder.text();
    let count = builder.count();
    assert(count == line_after(start, 0));
    let vars = compile_variables(&tree, &mut context, count);
    builder.push_line_smart(vars.as_str());
    let ghost ad = context.addr();
    let ghost part1 = builder.text();
    assert(context.gen().flags =~= Seq::empty());
    assert(context.gen().addrs =~= Seq::empty());
    assert(context.gen() == Gen { counter: 0, flags: Seq::empty(), addrs: Seq::empty() });
    let ghost g0 = context.gen();
    let mut f: usize = 0;
    while f < tree.functions.len()
        invariant
            ready(&tree, &context),
            context.addr() == ad,
            builder.wf(),
            f <= tree.functions@.len(),
            (builder.text(), context.gen()) == functions_fold(&tree, ad, g0, part1, f as int),
            builder.text().len() >= start.len(),
            builder.text().subrange(0, start.len() as int) == start,
        decreases tree.functions@.len() - f,
    {
        let at = builder.count();
        let ghost before = builder.text();
        let text = compile_function(FunctionId(f), &tree, &mut context, at);
        builder.push_line_smart(text.as_str());
        assert(at == line_after(before, 0));
        assert(builder.text().subrange(0, start.len() as int) =~= before.subrange(0, start.len() as int));
        f += 1;
    }
    let tail = compile_lower_kind_variables(&context);
    builder.push_line_smart(tail.as_str());
    let ghost full = builder.text();
    let r = builder.collapse_flat();
    proof {
        reveal_strlit("jns function_main");
        reveal_strlit("halt");
        reveal_strlit("jns function_main\nhalt");
        assert(start =~= "jns function_main"@ + seq!['\n'] + "halt"@ + seq!['\n']);
        assert(full.subrange(0, start.len() as int) == start);
        assert(full[21] == start[21]);
        assert(full[21] == 't');
        lemma_strip_nl(full);
        let m = strip_nl(full).len();
        assert(m > 21);
        assert(r@.subrange(0, 22) =~= start.subrange(0, 22));
        assert(start.subrange(0, 22) =~= "jns function_main\nhalt"@);
    }
    r
}

} // verus!

verus! {

/// The tree is the one that the token lines describe: its functions have the
/// shapes read from the lines, and each body holds the statements its lines say.
pub open spec fn source_tree(l: Seq<crate::lexer::TokenLine>, tree: ProgramTree) -> bool {
    &&& crate::parser::program_fns(l) == Some(tree.functions@.map_values(|g: Function| crate::parser::fn_shape(g)))
    &&& crate::parser::program_bodies(l).len() == tree.functions@.len()
    &&& forall|k: int|
        0 <= k < tree.functions@.len() ==> ((#[trigger] tree.functions@[k]).content matches Some(b)
            && crate::parser::block_read(tree.functions@[k], tree, crate::parser::program_bodies(l)[k], b@))
}

/// Lexes, parses and compiles a whole source text.
#[verifier::rlimit(40)]
pub fn compile_text(code: &str) -> (r: Result<String, crate::utility::LinedError>)
    ensures
        r matches Ok(s) ==> s@.len() >= 22 && s@.subrange(0, 22) == "jns function_main\nhalt"@,
        r matches Ok(s) ==> crate::lexer::lex_text(code@) is Ok && exists|tree: ProgramTree|
            tree.wf() && s@ == program_text(&tree),
        r matches Ok(s) ==> exists|l: Seq<crate::lexer::TokenLine>, tree: ProgramTree|
            crate::lexer::token_lines_view(l) == crate::lexer::lex_text(code@)->Ok_0 && tree.wf()
                && s@ == program_text(&tree) && #[trigger] source_tree(l, tree),
        crate::lexer::lex_text(code@) matches Err(k) ==> r matches Err(e) && e.line == k,
        r is Ok ==> (crate::lexer::lex_text(code@) matches Ok(ls) && exists|l: Seq<crate::lexer::TokenLine>|
            crate::lexer::token_lines_view(l) == ls && crate::parser::program_ok(l)),
        crate::lexer::lex_text(code@) matches Ok(ls) ==> ((forall|l: Seq<crate::lexer::TokenLine>|
            crate::lexer::token_lines_view(l) == ls ==> crate::parser::program_ok(l)) ==> r is Ok),
{
    let tokens = crate::lexer::tokenize(code)?;
    let ghost lines = tokens@;
    let slice = tokens.as_slice();
    assert(slice@ == lines);
    let tree = crate::parser::parse(slice)?;
    assert(crate::parser::program_ok(lines));
    let ghost t = tree;
    let r = compile(tree);
    assert(t.wf() && r@ == program_text(&t));
    assert(source_tree(lines, t));
    Ok(r)
}

} // verus!

verus! {

// ---------------------------------------------------------------------------
// Where the cells of the variables stand in the listing
pub open spec fn is_prefix(a: Seq<char>, b: Seq<char>) -> bool {
    a.len() <= b.len() && b.subrange(0, a.len() as int) == a
}

/// Empty, or ending with a line feed.
pub open spec fn ends_line(t: Seq<char>) -> bool {
    t.len() == 0 || t.last() == '\n'
}

proof fn lemma_prefix_trans(a: Seq<char>, b: Seq<char>, c: Seq<char>)
    requires
        is_prefix(a, b),
        is_prefix(b, c),
    ensures
        is_prefix(a, c),
{
    assert(c.subrange(0, a.len() as int) =~= c.subrange(0, b.len() as int).subrange(0, a.len() as int));
}

proof fn lemma_add_line_prefix(t: Seq<char>, x: Seq<char>)
    ensures
        is_prefix(t, add_line(t, x)),
        ends_line(t) ==> ends_line(add_line(t, x)),
{
    if x.len() > 0 {
        assert((t + x + seq!['\n']).subrange(0, t.len() as int) =~= t);
    } else {
        assert(t.subrange(0, t.len() as int) =~= t);
    }
}

proof fn lemma_vars_fold_prefix(tree: &ProgramTree, t: Seq<char>, vs: Seq<Variable>, m: int, n: int)
    requires
        0 <= m <= n <= vs.len(),
    ensures
        is_prefix(vars_fold(tree, t, vs, m), vars_fold(tree, t, vs, n)),
        ends_line(t) ==> ends_line(vars_fold(tree, t, vs, n)),
    decreases n,
{
    if n == 0 {
        assert(t.subrange(0, t.len() as int) =~= t);
    } else {
        lemma_vars_fold_prefix(tree, t, vs, if m == n {
            n - 1
        } else {
            m
        }, n - 1);
        lemma_add_line_prefix(vars_fold(tree, t, vs, n - 1), var_cell(tree, vs[n - 1]));
        if m < n {
            lemma_prefix_trans(
                vars_fold(tree, t, vs, m),
                vars_fold(tree, t, vs, n - 1),
                vars_fold(tree, t, vs, n),
            );
        } else {
            let v = vars_fold(tree, t, vs, n);
            assert(v.subrange(0, v.len() as int) =~= v);
        }
    }
}

proof fn lemma_values_fold_ends(u: Seq<i128>, k: int)
    ensures
        ends_line(values_fold(u, k)),
    decreases k,
{
    if k > 0 && k <= u.len() {
        lemma_values_fold_ends(u, k - 1);
        lemma_add_line_prefix(values_fold(u, k - 1), value_cell(u[k - 1]));
    }
}

proof fn lemma_pads_fold_ends(t: Seq<char>, a: int, b: int)
    requires
        ends_line(t),
    ensures
        ends_line(pads_fold(t, a, b)),
    decreases b - a,
{
    if a < b {
        lemma_pads_fold_ends(t, a, b - 1);
        lemma_add_line_prefix(pads_fold(t, a, b - 1), pad_cell((b - 1) as nat));
    }
}

/// The constant section ends a line.
proof fn lemma_section_ends(tree: &ProgramTree)
    ensures
        ends_line(section(tree)),
{
    reveal(section);
    let u = section_seq(tree);
    lemma_values_fold_ends(u, u.len() as int);
    lemma_pads_fold_ends(values_fold(u, u.len() as int), u.len() as int, section_n(tree) as int);
}

proof fn lemma_locals_fold_prefix(tree: &ProgramTree, f: int, n: int)
    requires
        0 <= f <= n <= tree.functions@.len(),
    ensures
        is_prefix(locals_fold(tree, f), locals_fold(tree, n)),
        is_prefix(globals_fold(tree), locals_fold(tree, n)),
        ends_line(locals_fold(tree, n)),
    decreases n,
{
    let ct = section(tree);
    lemma_section_ends(tree);
    lemma_vars_fold_prefix(tree, ct, tree.globals@, 0, tree.globals@.len() as int);
    if n == 0 {
        let g = globals_fold(tree);
        assert(g.subrange(0, g.len() as int) =~= g);
    } else {
        lemma_locals_fold_prefix(tree, if f == n {
            n - 1
        } else {
            f
        }, n - 1);
        let prev = locals_fold(tree, n - 1);
        let locals = tree.functions@[n - 1].locals@;
        lemma_vars_fold_prefix(tree, prev, locals, 0, locals.len() as int);
        assert(vars_fold(tree, prev, locals, 0) == prev);
        lemma_prefix_trans(globals_fold(tree), prev, locals_fold(tree, n));
        if f < n {
            lemma_prefix_trans(locals_fold(tree, f), prev, locals_fold(tree, n));
        } else {
            let v = locals_fold(tree, n);
            assert(v.subrange(0, v.len() as int) =~= v);
        }
    }
}

proof fn lemma_functions_fold_prefix(tree: &ProgramTree, ad: AddrMap, g: Gen, t: Seq<char>, n: int)
    ensures
        is_prefix(t, functions_fold(tree, ad, g, t, n).0),
    decreases n,
{
    if n <= 0 || n > tree.functions@.len() {
        assert(t.subrange(0, t.len() as int) =~= t);
    } else {
        lemma_functions_fold_prefix(tree, ad, g, t, n - 1);
        let (part1, g1) = functions_fold(tree, ad, g, t, n - 1);
        let (ft, g2) = function_text(tree, ad, g1, FunctionId((n - 1) as usize), line_after(part1, 0));
        lemma_add_line_prefix(part1, ft);
        lemma_prefix_trans(t, part1, add_line(part1, ft));
    }
}

proof fn lemma_nat_text_last(n: nat)
    ensures
        nat_text(n).len() > 0,
        nat_text(n).last() != '\n',
    decreases n,
{
    if n >= 10 {
        lemma_nat_text_last(n / 10);
    }
}

proof fn lemma_var_cell_ends(tree: &ProgramTree, v: Variable)
    ensures
        var_cell(tree, v).len() > 0,
        var_cell(tree, v).last() != '\n',
{
    let d = v.default_value as int;
    if d < 0 {
        lemma_nat_text_last((-d) as nat);
        assert(int_text(d).last() == nat_text((-d) as nat).last());
    } else {
        lemma_nat_text_last(d as nat);
    }
    assert(var_cell(tree, v).last() == int_text(d).last());
}

proof fn lemma_capped_add(a: nat, b: nat)
    ensures
        capped((capped(a) + capped(b)) as nat) == capped(a + b),
{
}

/// Where a line `cell` of text `s` stands, from position `p`: a whole line.
pub open spec fn cell_at(out: Seq<char>, p: int, cell: Seq<char>) -> bool {
    &&& 0 < p
    &&& p + cell.len() <= out.len()
    &&& out.subrange(p, p + cell.len()) == cell
    &&& out[p - 1] == '\n'
    &&& (p + cell.len() == out.len() || out[p + cell.len()] == '\n')
}

/// A cell of text `cell` that stands in `s` after `before`, a prefix ending
/// a line, stands in the listing built on `s`, at the same place.
proof fn lemma_cell_survives(
    tree: &ProgramTree,
    before: Seq<char>,
    cell: Seq<char>,
    s: Seq<char>,
)
    requires
        is_prefix(before + cell + seq!['\n'], s),
        before.len() > 0,
        before.last() == '\n',
        cell.len() > 0,
        cell.last() != '\n',
        is_prefix(s, program_raw(tree)),
    ensures
        cell_at(program_text(tree), before.len() as int, cell),
        program_text(tree).subrange(0, before.len() as int) == before,
{
    let raw = program_raw(tree);
    let out = program_text(tree);
    let p = before.len() as int;
    let q = p + cell.len();
    lemma_strip_nl(raw);
    lemma_prefix_trans(before + cell + seq!['\n'], s, raw);
    assert(raw.subrange(0, q + 1) == before + cell + seq!['\n']);
    assert(raw[q - 1] == (before + cell + seq!['\n'])[q - 1]);
    assert(raw[q - 1] == cell.last());
    assert(q <= out.len());
    assert(out == raw.subrange(0, out.len() as int));
    let w = before + cell + seq!['\n'];
    assert(out.subrange(p, q) =~= w.subrange(p, q));
    assert(w.subrange(p, q) =~= cell);
    assert(out.subrange(0, p) =~= w.subrange(0, p));
    assert(w.subrange(0, p) =~= before);
    assert(out[p - 1] == raw[p - 1]);
    assert(raw[p - 1] == w[p - 1]);
    assert(w[p - 1] == before.last());
    if q < out.len() {
        assert(out[q] == raw[q]);
        assert(raw[q] == (before + cell + seq!['\n'])[q]);
    }
}

/// The listing before the last line feeds are stripped.
pub open spec fn program_raw(tree: &ProgramTree) -> Seq<char> {
    let part0 = add_line(add_line(Seq::empty(), "jns function_main"@), "halt"@);
    let part1 = add_line(part0, variables_text(tree));
    let ad = program_addrs(tree, line_after(part0, 0));
    let g0 = Gen { counter: 0, flags: Seq::empty(), addrs: Seq::empty() };
    let (part2, g) = functions_fold(tree, ad, g0, part1, tree.functions@.len() as int);
    add_line(part2, lower_text(g))
}

/// The first lines of the listing: `jns function_main` and `halt`.
pub open spec fn program_start() -> Seq<char> {
    add_line(add_line(Seq::empty(), "jns function_main"@), "halt"@)
}

/// The text of the cells before the cell of variable `v`.
pub open spec fn cell_prefix(tree: &ProgramTree, v: VariableId) -> Seq<char> {
    match v.kind {
        VariableType::Global => vars_fold(
            tree,
            section(tree),
            tree.globals@,
            v.raw as int,
        ),
        VariableType::Local(f) => vars_fold(
            tree,
            locals_fold(tree, f.0 as int),
            tree.functions@[f.0 as int].locals@,
            v.raw as int,
        ),
    }
}

proof fn lemma_cell_in_variables(tree: &ProgramTree, v: VariableId, count: usize)
    requires
        tree.var_exists(v),
    ensures
        is_prefix(
            cell_prefix(tree, v) + var_cell(tree, tree.spec_get_var(v)) + seq!['\n'],
            locals_fold(tree, tree.functions@.len() as int),
        ),
        ends_line(cell_prefix(tree, v)),
        address_of(program_addrs(tree, count), v) == line_after(cell_prefix(tree, v), count),
{
    let ct = section(tree);
    let nf = tree.functions@.len() as int;
    let l = locals_fold(tree, nf);
    lemma_locals_fold_prefix(tree, 0, nf);
    lemma_section_ends(tree);
    let (prefix, vs, k) = match v.kind {
        VariableType::Global => (ct, tree.globals@, v.raw as int),
        VariableType::Local(f) => (
            locals_fold(tree, f.0 as int),
            tree.functions@[f.0 as int].locals@,
            v.raw as int,
        ),
    };
    let cell = var_cell(tree, vs[k]);
    assert(vs[k] == tree.spec_get_var(v));
    lemma_var_cell_ends(tree, vs[k]);
    lemma_vars_fold_prefix(tree, prefix, vs, k + 1, vs.len() as int);
    assert(ends_line(prefix)) by {
        match v.kind {
            VariableType::Global => {},
            VariableType::Local(f) => {
                lemma_locals_fold_prefix(tree, f.0 as int, f.0 as int);
            },
        }
    };
    lemma_vars_fold_prefix(tree, prefix, vs, 0, k);
    assert(vars_fold(tree, prefix, vs, k + 1) == cell_prefix(tree, v) + cell + seq!['\n']);
    match v.kind {
        VariableType::Global => {
            lemma_prefix_trans(vars_fold(tree, prefix, vs, k + 1), globals_fold(tree), l);
        },
        VariableType::Local(f) => {
            lemma_locals_fold_prefix(tree, f.0 as int + 1, nf);
            assert(locals_fold(tree, f.0 as int + 1) == vars_fold(tree, prefix, vs, vs.len() as int));
            lemma_prefix_trans(vars_fold(tree, prefix, vs, k + 1), locals_fold(tree, f.0 as int + 1), l);
        },
    }
}

/// The cell of every variable stands on its own line of the listing, at the
/// line that code generation records for it, which is the address that
/// `&variable` loads.
#[verifier::rlimit(100)]
pub proof fn lemma_cell_lines(tree: &ProgramTree, v: VariableId)
    requires
        tree.wf(),
        tree.var_exists(v),
    ensures
        exists|p: int|
            cell_at(program_text(tree), p, var_cell(tree, tree.spec_get_var(v))) && address_of(
                program_addrs(tree, line_after(program_start(), 0)),
                v,
            ) == capped(count_nl(program_text(tree).subrange(0, p))),
{
    let part0 = program_start();
    reveal_strlit("jns function_main");
    reveal_strlit("halt");
    assert(part0.len() > 0 && part0.last() == '\n');
    let count = line_after(part0, 0);
    let nf = tree.functions@.len() as int;
    let l = locals_fold(tree, nf);
    let before_v = cell_prefix(tree, v);
    let cell = var_cell(tree, tree.spec_get_var(v));
    lemma_cell_in_variables(tree, v, count);
    lemma_var_cell_ends(tree, tree.spec_get_var(v));
    let w = before_v + cell + seq!['\n'];
    let vlen = w.len();
    assert(l.subrange(0, vlen as int) == w);
    assert(l[vlen - 2] == w[vlen - 2]);
    assert(w[vlen - 2] == cell.last());
    lemma_strip_nl(l);
    let vt = variables_text(tree);
    assert(vlen - 1 <= vt.len());
    assert(vt == l.subrange(0, vt.len() as int));
    let part1 = add_line(part0, vt);
    let ad = program_addrs(tree, count);
    let g0 = Gen { counter: 0, flags: Seq::empty(), addrs: Seq::empty() };
    let (part2, g) = functions_fold(tree, ad, g0, part1, nf);
    lemma_functions_fold_prefix(tree, ad, g0, part1, nf);
    lemma_add_line_prefix(part2, lower_text(g));
    lemma_prefix_trans(part1, part2, program_raw(tree));
    let before = part0 + before_v;
    assert(before.last() == '\n') by {
        if before_v.len() > 0 {
            assert(before.last() == before_v.last());
        }
    };
    let s = if vlen <= vt.len() {
        part0 + vt
    } else {
        part1
    };
    assert(is_prefix(before + cell + seq!['\n'], s)) by {
        if vlen <= vt.len() {
            assert((part0 + vt).subrange(0, (before + cell + seq!['\n']).len() as int) =~= before
                + cell + seq!['\n']);
        } else {
            assert(part1 == part0 + vt + seq!['\n']);
            assert(part1.subrange(0, (before + cell + seq!['\n']).len() as int) =~= before + cell
                + seq!['\n']);
        }
    };
    assert(is_prefix(s, program_raw(tree))) by {
        if vlen <= vt.len() {
            assert(part1.subrange(0, (part0 + vt).len() as int) =~= part0 + vt);
            lemma_prefix_trans(part0 + vt, part1, program_raw(tree));
        }
    };
    lemma_cell_survives(tree, before, cell, s);
    let out = program_text(tree);
    let p = before.len() as int;
    lemma_count_nl_concat(part0, before_v);
    lemma_capped_add(count_nl(before_v), count_nl(part0));
    assert(cell_at(out, p, cell));
    assert(out.subrange(0, p) == before);
}

} // verus!

verus! {

// ---------------------------------------------------------------------------
// Where the calls of stack functions stand in the listing
/// No function name holds a line feed: each instruction is one line.
pub open spec fn names_plain(tree: &ProgramTree) -> bool {
    forall|f: int|
        0 <= f < tree.functions@.len() ==> !(#[trigger] tree.functions@[f].name@).contains('\n')
}

/// A line of `x` starting at `q` is a `jns`, and `v` is the line after it
/// when `x` starts at line `base`.
pub open spec fn jns_before(x: Seq<char>, q: int, base: nat, v: usize) -> bool {
    &&& 0 <= q
    &&& q + 4 <= x.len()
    &&& x.subrange(q, q + 4) == "jns "@
    &&& (q == 0 || x[q - 1] == '\n')
    &&& v == capped(count_nl(x.subrange(0, q)) + 1 + base)
}

pub open spec fn addr_ok(x: Seq<char>, base: nat, v: usize) -> bool {
    exists|q: int| #[trigger] jns_before(x, q, base, v)
}

/// The address cells from position `from` on are all kept by `x`.
pub open spec fn addrs_ok(x: Seq<char>, base: nat, addrs: Seq<(usize, usize)>, from: int) -> bool {
    forall|k: int| from <= k < addrs.len() ==> addr_ok(x, base, (#[trigger] addrs[k]).1)
}

proof fn lemma_count_nl_plain(s: Seq<char>)
    requires
        !s.contains('\n'),
    ensures
        count_nl(s) == 0,
    decreases s.len(),
{
    if s.len() > 0 {
        assert(!s.drop_last().contains('\n')) by {
            if s.drop_last().contains('\n') {
                let k = choose|k: int| 0 <= k < s.drop_last().len() && s.drop_last()[k] == '\n';
                assert(s[k] == '\n');
            }
        };
        lemma_count_nl_plain(s.drop_last());
        assert(s.last() != '\n') by {
            if s.last() == '\n' {
                assert(s[s.len() - 1] == '\n');
            }
        };
    }
}

proof fn lemma_addr_prefix(x: Seq<char>, y: Seq<char>, base: nat, v: usize)
    requires
        addr_ok(x, base, v),
        is_prefix(x, y),
    ensures
        addr_ok(y, base, v),
{
    let q = choose|q: int| jns_before(x, q, base, v);
    assert(y.subrange(q, q + 4) =~= x.subrange(q, q + 4));
    assert(y.subrange(0, q) =~= x.subrange(0, q));
    if q > 0 {
        assert(y[q - 1] == x[q - 1]);
    }
    assert(jns_before(y, q, base, v));
}

proof fn lemma_addr_strip(x: Seq<char>, base: nat, v: usize)
    requires
        addr_ok(x, base, v),
    ensures
        addr_ok(strip_nl(x), base, v),
{
    let q = choose|q: int| jns_before(x, q, base, v);
    lemma_strip_nl(x);
    reveal_strlit("jns ");
    assert(x[q + 3] == x.subrange(q, q + 4)[3]);
    assert(x[q + 3] == ' ');
    assert(q + 4 <= strip_nl(x).len());
    let s = strip_nl(x);
    assert(s.subrange(q, q + 4) =~= x.subrange(q, q + 4));
    assert(s.subrange(0, q) =~= x.subrange(0, q));
    if q > 0 {
        assert(s[q - 1] == x[q - 1]);
    }
    assert(jns_before(s, q, base, v));
}

proof fn lemma_capped_shift(n: nat, m: nat, base: nat)
    ensures
        capped((n + 1 + capped((capped(m) + base) as nat)) as nat) == capped(m + n + 1 + base),
{
}

/// A piece placed after `p`, which ends a line, keeps its cells.
proof fn lemma_addr_shift(p: Seq<char>, x: Seq<char>, base: nat, v: usize)
    requires
        addr_ok(x, line_after(p, base as usize) as nat, v),
        ends_line(p),
        base <= usize::MAX,
    ensures
        addr_ok(p + x, base, v),
{
    let l = line_after(p, base as usize) as nat;
    let q = choose|q: int| jns_before(x, q, l, v);
    let y = p + x;
    let q2 = p.len() + q;
    assert(y.subrange(q2, q2 + 4) =~= x.subrange(q, q + 4));
    assert(y.subrange(0, q2) =~= p + x.subrange(0, q));
    lemma_count_nl_concat(p, x.subrange(0, q));
    if q2 > 0 {
        if q > 0 {
            assert(y[q2 - 1] == x[q - 1]);
        } else {
            assert(y[q2 - 1] == p.last());
        }
    }
    lemma_capped_shift(count_nl(x.subrange(0, q)), count_nl(p), base);
    assert(jns_before(y, q2, base, v));
}

/// A piece appended as a line keeps its cells.
proof fn lemma_addrs_add_line(
    t: Seq<char>,
    x: Seq<char>,
    base: usize,
    addrs: Seq<(usize, usize)>,
    from: int,
)
    requires
        addrs_ok(x, line_after(t, base) as nat, addrs, from),
        ends_line(t),
    ensures
        addrs_ok(add_line(t, x), base as nat, addrs, from),
{
    assert forall|k: int| from <= k < addrs.len() implies addr_ok(
        add_line(t, x),
        base as nat,
        (#[trigger] addrs[k]).1,
    ) by {
        assert(addr_ok(x, line_after(t, base) as nat, addrs[k].1));
        lemma_addr_shift(t, x, base as nat, addrs[k].1);
        if x.len() > 0 {
            assert(add_line(t, x) == (t + x) + seq!['\n']);
            assert((add_line(t, x)).subrange(0, (t + x).len() as int) =~= t + x);
            lemma_addr_prefix(t + x, add_line(t, x), base as nat, addrs[k].1);
        } else {
            assert(t + x =~= t);
        }
    };
}

proof fn lemma_addrs_prefix(x: Seq<char>, y: Seq<char>, base: nat, addrs: Seq<(usize, usize)>, from: int)
    requires
        addrs_ok(x, base, addrs, from),
        is_prefix(x, y),
    ensures
        addrs_ok(y, base, addrs, from),
{
    assert forall|k: int| from <= k < addrs.len() implies addr_ok(y, base, (#[trigger] addrs[k]).1) by {
        lemma_addr_prefix(x, y, base, addrs[k].1);
    };
}

proof fn lemma_addrs_strip(x: Seq<char>, base: nat, addrs: Seq<(usize, usize)>, from: int)
    requires
        addrs_ok(x, base, addrs, from),
    ensures
        addrs_ok(strip_nl(x), base, addrs, from),
{
    assert forall|k: int| from <= k < addrs.len() implies addr_ok(strip_nl(x), base, (#[trigger] addrs[k]).1) by {
        lemma_addr_strip(x, base, addrs[k].1);
    };
}

} // verus!

verus! {

pub open spec fn addrs_extend(a: Seq<(usize, usize)>, b: Seq<(usize, usize)>) -> bool {
    a.len() <= b.len() && forall|k: int| 0 <= k < a.len() ==> #[trigger] b[k] == a[k]
}

proof fn lemma_push_args_fold(tree: &ProgramTree, ad: AddrMap, t: Seq<char>, push: FunctionId, args: Seq<ArgumentCallArg>, n: int)
    requires
        ends_line(t),
    ensures
        ends_line(push_args_text(tree, ad, t, push, args, n)),
        is_prefix(t, push_args_text(tree, ad, t, push, args, n)),
    decreases n,
{
    if n <= 0 {
        assert(t.subrange(0, t.len() as int) =~= t);
    } else {
        lemma_push_args_fold(tree, ad, t, push, args, n - 1);
        let prev = push_args_text(tree, ad, t, push, args, n - 1);
        lemma_add_line_prefix(prev, call_text(tree, ad, push, seq![args[n - 1]], None));
        lemma_prefix_trans(t, prev, push_args_text(tree, ad, t, push, args, n));
    }
}

proof fn lemma_push_locals_fold(tree: &ProgramTree, ad: AddrMap, t: Seq<char>, push: FunctionId, from: Function, n: int)
    requires
        ends_line(t),
    ensures
        ends_line(push_locals_text(tree, ad, t, push, from, n)),
    decreases n,
{
    if n > 0 {
        lemma_push_locals_fold(tree, ad, t, push, from, n - 1);
        let prev = push_locals_text(tree, ad, t, push, from, n - 1);
        lemma_add_line_prefix(
            prev,
            call_text(tree, ad, push, seq![ArgumentCallArg::Reference(from.locals@[n - 1].id)], None),
        );
    }
}

proof fn lemma_pop_locals_fold(tree: &ProgramTree, ad: AddrMap, t: Seq<char>, pop: FunctionId, from: Function, m: int)
    ensures
        is_prefix(t, pop_locals_text(tree, ad, t, pop, from, m)),
    decreases m,
{
    if m <= 0 {
        assert(t.subrange(0, t.len() as int) =~= t);
    } else {
        lemma_pop_locals_fold(tree, ad, t, pop, from, m - 1);
        let prev = pop_locals_text(tree, ad, t, pop, from, m - 1);
        lemma_add_line_prefix(
            prev,
            call_text(tree, ad, pop, Seq::empty(), Some(from.locals@[from.locals@.len() - m].id)),
        );
        lemma_prefix_trans(t, prev, pop_locals_text(tree, ad, t, pop, from, m));
    }
}

proof fn lemma_stack_head_jns(tree: &ProgramTree, ad: AddrMap, g: Gen, c: FunctionCall, lines: usize)
    requires
        names_plain(tree),
        c.fnc_id.0 < tree.functions@.len(),
    ensures
        addr_ok(
            stack_call_head(tree, ad, g, c),
            lines as nat,
            line_after(stack_call_head(tree, ad, g, c), lines),
        ),
{
    let push = tree.functions@[fn_named(tree, push_name())];
    let from = tree.functions@[c.from.0 as int];
    let part1 = if from.is_stack {
        push_locals_text(tree, ad, Seq::empty(), push.id, from, from.locals@.len() as int)
    } else {
        Seq::empty()
    };
    if from.is_stack {
        lemma_push_locals_fold(tree, ad, Seq::empty(), push.id, from, from.locals@.len() as int);
    }
    let part2 = add_line(part1, "load addr_"@ + nat_text(g.counter as nat));
    lemma_add_line_prefix(part1, "load addr_"@ + nat_text(g.counter as nat));
    let part3 = add_line(part2, "store "@ + var_text(tree, push.locals@[0]));
    lemma_add_line_prefix(part2, "store "@ + var_text(tree, push.locals@[0]));
    let part4 = add_line(part3, "jns function_push"@);
    lemma_add_line_prefix(part3, "jns function_push"@);
    let part5 = push_args_text(tree, ad, part4, push.id, c.arguments@, c.arguments@.len() as int);
    lemma_push_args_fold(tree, ad, part4, push.id, c.arguments@, c.arguments@.len() as int);
    let callee = tree.functions@[c.fnc_id.0 as int];
    let jl = "jns "@ + fnc_name_text(callee);
    let part6 = add_line(part5, jl);
    assert(part6 == stack_call_head(tree, ad, g, c));
    reveal_strlit("jns ");
    reveal_strlit("function_");
    assert(!jl.contains('\n')) by {
        if jl.contains('\n') {
            let k = choose|k: int| 0 <= k < jl.len() && jl[k] == '\n';
            if k >= 13 {
                assert(callee.name@[k - 13] == '\n');
            }
        }
    };
    lemma_count_nl_plain(jl);
    assert(part6 == part5 + jl + seq!['\n']);
    lemma_count_nl_concat(part5, jl);
    lemma_count_nl_concat(part5 + jl, seq!['\n']);
    assert(count_nl(seq!['\n']) == 1) by {
        assert(seq!['\n'].drop_last() =~= Seq::<char>::empty());
        assert(count_nl(Seq::<char>::empty()) == 0);
    };
    let q = part5.len() as int;
    let v = line_after(part6, lines);
    assert(part6.subrange(q, q + 4) =~= "jns "@);
    assert(part6.subrange(0, q) =~= part5);
    if q > 0 {
        assert(part6[q - 1] == part5.last());
    }
    assert(count_nl(part6) == count_nl(part5) + 1);
    lemma_capped_add(count_nl(part5) + 1, lines as nat);
    assert(v == capped(count_nl(part6.subrange(0, q)) + 1 + lines as nat));
    assert(jns_before(part6, q, lines as nat, v));
}

proof fn lemma_stack_call_addrs(tree: &ProgramTree, ad: AddrMap, g: Gen, c: FunctionCall, lines: usize)
    requires
        names_plain(tree),
        c.fnc_id.0 < tree.functions@.len(),
    ensures
        addrs_extend(g.addrs, stack_call_text(tree, ad, g, c, lines).1.addrs),
        stack_call_text(tree, ad, g, c, lines).1.addrs.len() == g.addrs.len() + 1,
        addrs_ok(
            stack_call_text(tree, ad, g, c, lines).0,
            lines as nat,
            stack_call_text(tree, ad, g, c, lines).1.addrs,
            g.addrs.len() as int,
        ),
{
    let pop = tree.functions@[fn_named(tree, pop_name())];
    let from = tree.functions@[c.from.0 as int];
    let part6 = stack_call_head(tree, ad, g, c);
    let a = (g.counter, line_after(part6, lines));
    lemma_stack_head_jns(tree, ad, g, c, lines);
    let part7 = add_line(part6, "load var_return\nstore var_return_saver"@);
    lemma_add_line_prefix(part6, "load var_return\nstore var_return_saver"@);
    let part8 = if from.is_stack {
        pop_locals_text(tree, ad, part7, pop.id, from, from.locals@.len() as int)
    } else {
        part7
    };
    lemma_pop_locals_fold(tree, ad, part7, pop.id, from, from.locals@.len() as int);
    if !from.is_stack {
        assert(part7.subrange(0, part7.len() as int) =~= part7);
    }
    let part9 = add_line(part8, "load var_return_saver\nstore var_return"@);
    lemma_add_line_prefix(part8, "load var_return_saver\nstore var_return"@);
    let part10 = match c.assignment {
        Some(x) => add_line(part9, "store "@ + var_text(tree, tree.spec_get_var(x))),
        None => part9,
    };
    match c.assignment {
        Some(x) => {
            lemma_add_line_prefix(part9, "store "@ + var_text(tree, tree.spec_get_var(x)));
        },
        None => {
            assert(part9.subrange(0, part9.len() as int) =~= part9);
        },
    }
    lemma_prefix_trans(part6, part7, part8);
    lemma_prefix_trans(part6, part8, part9);
    lemma_prefix_trans(part6, part9, part10);
    lemma_addr_prefix(part6, part10, lines as nat, a.1);
    lemma_addr_strip(part10, lines as nat, a.1);
    let g2 = stack_call_text(tree, ad, g, c, lines).1;
    assert(g2.addrs == g.addrs.push(a));
    assert(g2.addrs[g.addrs.len() as int] == a);
}

} // verus!

verus! {

proof fn lemma_addrs_combine(
    t: Seq<char>,
    u: Seq<char>,
    base: nat,
    a1: Seq<(usize, usize)>,
    a2: Seq<(usize, usize)>,
    from: int,
)
    requires
        0 <= from,
        addrs_ok(t, base, a1, from),
        is_prefix(t, u),
        addrs_extend(a1, a2),
        addrs_ok(u, base, a2, a1.len() as int),
    ensures
        addrs_ok(u, base, a2, from),
{
    assert forall|k: int| from <= k < a2.len() implies addr_ok(u, base, (#[trigger] a2[k]).1) by {
        if k < a1.len() {
            assert(a2[k] == a1[k]);
            lemma_addr_prefix(t, u, base, a1[k].1);
        }
    };
}

proof fn lemma_extend_trans(a: Seq<(usize, usize)>, b: Seq<(usize, usize)>, c: Seq<(usize, usize)>)
    requires
        addrs_extend(a, b),
        addrs_extend(b, c),
    ensures
        addrs_extend(a, c),
{
    assert forall|k: int| 0 <= k < a.len() implies #[trigger] c[k] == a[k] by {
        assert(b[k] == a[k]);
    };
}

proof fn lemma_simple_addrs(tree: &ProgramTree, ad: AddrMap, g: Gen, st: Statement, lines: usize, f: int)
    requires
        names_plain(tree),
        stmt_ok(tree.shape(), f, st),
    ensures
        simple_text(tree, ad, g, st, lines) matches Some((s, g2)) ==> addrs_extend(g.addrs, g2.addrs)
            && addrs_ok(s, lines as nat, g2.addrs, g.addrs.len() as int),
{
    match st {
        Statement::FunctionCall(c) => {
            if tree.functions@[c.fnc_id.0 as int].is_stack {
                lemma_stack_call_addrs(tree, ad, g, c, lines);
            }
        },
        _ => {},
    }
}

proof fn lemma_if_head_ends(tree: &ProgramTree, ad: AddrMap, i: If, c: usize)
    ensures
        ends_line(if_head(tree, ad, i, c)),
{
    let jump_not = if i.if_false is Some {
        label("jump else_"@, c, ""@)
    } else {
        label("jump end_if_"@, c, ""@)
    };
    let part0 = add_line(Seq::empty(), load_text(tree, ad, i.b) + "\nstore "@ + var_text(tree, tree.globals@[0]));
    lemma_add_line_prefix(Seq::empty(), load_text(tree, ad, i.b) + "\nstore "@ + var_text(tree, tree.globals@[0]));
    let part1 = add_line(part0, load_text(tree, ad, i.a));
    lemma_add_line_prefix(part0, load_text(tree, ad, i.a));
    let part2 = add_line(part1, "subt var__temp"@);
    lemma_add_line_prefix(part1, "subt var__temp"@);
    let part3 = add_line(part2, "skipcond "@ + cond_text(i.cond));
    lemma_add_line_prefix(part2, "skipcond "@ + cond_text(i.cond));
    let part4 = add_line(part3, jump_not);
    lemma_add_line_prefix(part3, jump_not);
    let part5 = add_line(part4, label("jump if_"@, c, ""@));
    lemma_add_line_prefix(part4, label("jump if_"@, c, ""@));
    lemma_add_line_prefix(part5, label("if_"@, c, ", store var__temp"@));
}

proof fn lemma_block_fold_addrs(
    tree: &ProgramTree,
    ad: AddrMap,
    g: Gen,
    b: Seq<Statement>,
    lines: usize,
    id: FunctionId,
    n: int,
)
    requires
        names_plain(tree),
        block_ok(tree.shape(), id.0 as int, b),
    ensures
        ends_line(block_fold(tree, ad, g, b, lines, id, n).0),
        addrs_extend(g.addrs, block_fold(tree, ad, g, b, lines, id, n).1.addrs),
        addrs_ok(
            block_fold(tree, ad, g, b, lines, id, n).0,
            lines as nat,
            block_fold(tree, ad, g, b, lines, id, n).1.addrs,
            g.addrs.len() as int,
        ),
    decreases b, n,
{
    if n <= 0 || n > b.len() {
    } else {
        lemma_block_fold_addrs(tree, ad, g, b, lines, id, n - 1);
        let (t, g1) = block_fold(tree, ad, g, b, lines, id, n - 1);
        let at = line_after(t, lines);
        let st = b[n - 1];
        assert(stmt_ok(tree.shape(), id.0 as int, st));
        match simple_text(tree, ad, g1, st, at) {
            Some((s, g2)) => {
                lemma_simple_addrs(tree, ad, g1, st, at, id.0 as int);
                lemma_addrs_add_line(t, s, lines, g2.addrs, g1.addrs.len() as int);
                lemma_add_line_prefix(t, s);
                lemma_addrs_combine(t, add_line(t, s), lines as nat, g1.addrs, g2.addrs, g.addrs.len() as int);
                lemma_extend_trans(g.addrs, g1.addrs, g2.addrs);
            },
            None => {
                lemma_advance_addrs(tree, ad, g1, st, at, id);
                let (a, g2) = advance_text(tree, ad, g1, st, at, id);
                match a {
                    Some(x) => {
                        lemma_addrs_add_line(t, x, lines, g2.addrs, g1.addrs.len() as int);
                        lemma_add_line_prefix(t, x);
                        lemma_addrs_combine(t, add_line(t, x), lines as nat, g1.addrs, g2.addrs, g.addrs.len() as int);
                    },
                    None => {
                        assert(t.subrange(0, t.len() as int) =~= t);
                        lemma_addrs_combine(t, t, lines as nat, g1.addrs, g2.addrs, g.addrs.len() as int);
                    },
                }
                lemma_extend_trans(g.addrs, g1.addrs, g2.addrs);
            },
        }
    }
}

proof fn lemma_advance_addrs(tree: &ProgramTree, ad: AddrMap, g: Gen, st: Statement, line: usize, id: FunctionId)
    requires
        names_plain(tree),
        stmt_ok(tree.shape(), id.0 as int, st),
    ensures
        addrs_extend(g.addrs, advance_text(tree, ad, g, st, line, id).1.addrs),
        advance_text(tree, ad, g, st, line, id).0 matches Some(x) ==> addrs_ok(
            x,
            line as nat,
            advance_text(tree, ad, g, st, line, id).1.addrs,
            g.addrs.len() as int,
        ),
    decreases st, 0int,
{
    match st {
        Statement::If(i) => {
            lemma_if_addrs(tree, ad, g, i, line, id);
        },
        _ => {},
    }
}

#[verifier::rlimit(80)]
proof fn lemma_if_addrs(tree: &ProgramTree, ad: AddrMap, g: Gen, i: If, line: usize, id: FunctionId)
    requires
        names_plain(tree),
        stmt_ok(tree.shape(), id.0 as int, Statement::If(i)),
    ensures
        addrs_extend(g.addrs, if_text(tree, ad, g, i, line, id).1.addrs),
        addrs_ok(
            if_text(tree, ad, g, i, line, id).0,
            line as nat,
            if_text(tree, ad, g, i, line, id).1.addrs,
            g.addrs.len() as int,
        ),
    decreases i, 0int,
{
    let c = g.counter;
    let g1 = Gen { counter: capped((c + 1) as nat), flags: g.flags, addrs: g.addrs };
    let part6 = if_head(tree, ad, i, c);
    lemma_if_head_ends(tree, ad, i, c);
    let (bt, g2) = block_fold(tree, ad, g1, i.if_true@, line_after(part6, line), id, i.if_true@.len() as int);
    lemma_block_fold_addrs(tree, ad, g1, i.if_true@, line_after(part6, line), id, i.if_true@.len() as int);
    lemma_addrs_strip(bt, line_after(part6, line) as nat, g2.addrs, g.addrs.len() as int);
    let part7 = add_line(part6, strip_nl(bt));
    lemma_addrs_add_line(part6, strip_nl(bt), line, g2.addrs, g.addrs.len() as int);
    lemma_add_line_prefix(part6, strip_nl(bt));
    let (part10, g3) = match i.if_false {
        Some(e) => {
            let part8 = add_line(part7, label("jump end_if_"@, c, ""@));
            let part9 = add_line(part8, label("else_"@, c, ", store var__temp"@));
            let (et, g3) = block_fold(tree, ad, g2, e@, line_after(part9, line), id, e@.len() as int);
            (add_line(part9, strip_nl(et)), g3)
        },
        None => (part7, g2),
    };
    match i.if_false {
        Some(e) => {
            let part8 = add_line(part7, label("jump end_if_"@, c, ""@));
            lemma_add_line_prefix(part7, label("jump end_if_"@, c, ""@));
            let part9 = add_line(part8, label("else_"@, c, ", store var__temp"@));
            lemma_add_line_prefix(part8, label("else_"@, c, ", store var__temp"@));
            lemma_prefix_trans(part7, part8, part9);
            lemma_addrs_prefix(part7, part9, line as nat, g2.addrs, g.addrs.len() as int);
            lemma_block_fold_addrs(tree, ad, g2, e@, line_after(part9, line), id, e@.len() as int);
            let (et, g3e) = block_fold(tree, ad, g2, e@, line_after(part9, line), id, e@.len() as int);
            lemma_addrs_strip(et, line_after(part9, line) as nat, g3e.addrs, g2.addrs.len() as int);
            lemma_addrs_add_line(part9, strip_nl(et), line, g3e.addrs, g2.addrs.len() as int);
            lemma_add_line_prefix(part9, strip_nl(et));
            lemma_addrs_combine(part9, part10, line as nat, g2.addrs, g3e.addrs, g.addrs.len() as int);
            lemma_extend_trans(g.addrs, g2.addrs, g3e.addrs);
        },
        None => {},
    }
    let part11 = add_line(part10, label("end_if_"@, c, ", store var__temp"@));
    lemma_add_line_prefix(part10, label("end_if_"@, c, ", store var__temp"@));
    lemma_addrs_prefix(part10, part11, line as nat, g3.addrs, g.addrs.len() as int);
    lemma_addrs_strip(part11, line as nat, g3.addrs, g.addrs.len() as int);
}

} // verus!

verus! {

proof fn lemma_reset_locals_ends(tree: &ProgramTree, t: Seq<char>, f: Function, j: int)
    requires
        ends_line(t),
    ensures
        ends_line(reset_locals_text(tree, t, f, j)),
    decreases j,
{
    if j > f.args && j <= f.locals@.len() {
        lemma_reset_locals_ends(tree, t, f, j - 1);
        lemma_add_line_prefix(
            reset_locals_text(tree, t, f, j - 1),
            "load "@ + const_text(f.locals@[j - 1].default_value as int) + "\nstore "@ + var_text(
                tree,
                f.locals@[j - 1],
            ),
        );
    }
}

proof fn lemma_pop_args_ends(tree: &ProgramTree, ad: AddrMap, t: Seq<char>, pop: FunctionId, f: Function, m: int)
    requires
        ends_line(t),
    ensures
        ends_line(pop_args_text(tree, ad, t, pop, f, m)),
    decreases m,
{
    if m > 0 {
        lemma_pop_args_ends(tree, ad, t, pop, f, m - 1);
        lemma_add_line_prefix(
            pop_args_text(tree, ad, t, pop, f, m - 1),
            call_text(tree, ad, pop, Seq::empty(), Some(f.locals@[f.args - m].id)),
        );
    }
}

proof fn lemma_function_addrs(tree: &ProgramTree, ad: AddrMap, g: Gen, fid: FunctionId, line: usize)
    requires
        names_plain(tree),
        tree.wf(),
        fid.0 < tree.functions@.len(),
    ensures
        addrs_extend(g.addrs, function_text(tree, ad, g, fid, line).1.addrs),
        addrs_ok(
            function_text(tree, ad, g, fid, line).0,
            line as nat,
            function_text(tree, ad, g, fid, line).1.addrs,
            g.addrs.len() as int,
        ),
{
    let f = tree.functions@[fid.0 as int];
    let pop = tree.functions@[fn_named(tree, pop_name())].id;
    match f.content {
        None => {},
        Some(content) => {
            assert(tree.bodies_ok());
            assert(function_ids_ok(tree.functions@, fid.0 as int));
            assert(block_ok(tree.shape(), fid.0 as int, content@));
            let part0 = add_line(Seq::empty(), "function_"@ + f.name@ + ", DEC 0"@);
            lemma_add_line_prefix(Seq::empty(), "function_"@ + f.name@ + ", DEC 0"@);
            let part1 = if f.is_stack {
                pop_args_text(tree, ad, part0, pop, f, f.args as int)
            } else {
                part0
            };
            lemma_pop_args_ends(tree, ad, part0, pop, f, f.args as int);
            let part2 = reset_locals_text(tree, part1, f, f.locals@.len() as int);
            lemma_reset_locals_ends(tree, part1, f, f.locals@.len() as int);
            let (part3, g1) = if content@.len() > 0 {
                let (bt, g1) = block_text(tree, ad, g, content@, line_after(part2, line), f.id);
                (add_line(part2, bt), g1)
            } else {
                (part2, g)
            };
            if content@.len() > 0 {
                let at = line_after(part2, line);
                lemma_block_fold_addrs(tree, ad, g, content@, at, f.id, content@.len() as int);
                let (ft, g1f) = block_fold(tree, ad, g, content@, at, f.id, content@.len() as int);
                lemma_addrs_strip(ft, at as nat, g1f.addrs, g.addrs.len() as int);
                lemma_addrs_add_line(part2, strip_nl(ft), line, g1f.addrs, g.addrs.len() as int);
            }
            let part4 = if f.is_stack {
                add_line(add_line(part3, call_text(tree, ad, pop, Seq::empty(), None)), "jumpi var_return"@)
            } else {
                add_line(part3, return_text(tree, ad, f, None))
            };
            if f.is_stack {
                let u = add_line(part3, call_text(tree, ad, pop, Seq::empty(), None));
                lemma_add_line_prefix(part3, call_text(tree, ad, pop, Seq::empty(), None));
                lemma_add_line_prefix(u, "jumpi var_return"@);
                lemma_prefix_trans(part3, u, part4);
            } else {
                lemma_add_line_prefix(part3, return_text(tree, ad, f, None));
            }
            lemma_addrs_prefix(part3, part4, line as nat, g1.addrs, g.addrs.len() as int);
            lemma_addrs_strip(part4, line as nat, g1.addrs, g.addrs.len() as int);
        },
    }
}

proof fn lemma_functions_fold_addrs(tree: &ProgramTree, ad: AddrMap, g: Gen, t: Seq<char>, n: int)
    requires
        names_plain(tree),
        tree.wf(),
        ends_line(t),
    ensures
        ends_line(functions_fold(tree, ad, g, t, n).0),
        addrs_extend(g.addrs, functions_fold(tree, ad, g, t, n).1.addrs),
        addrs_ok(functions_fold(tree, ad, g, t, n).0, 0, functions_fold(tree, ad, g, t, n).1.addrs, g.addrs.len() as int),
    decreases n,
{
    if n <= 0 || n > tree.functions@.len() {
    } else {
        lemma_functions_fold_addrs(tree, ad, g, t, n - 1);
        let (part1, g1) = functions_fold(tree, ad, g, t, n - 1);
        let at = line_after(part1, 0);
        let (ft, g2) = function_text(tree, ad, g1, FunctionId((n - 1) as usize), at);
        lemma_function_addrs(tree, ad, g1, FunctionId((n - 1) as usize), at);
        lemma_addrs_add_line(part1, ft, 0, g2.addrs, g1.addrs.len() as int);
        lemma_add_line_prefix(part1, ft);
        lemma_addrs_combine(part1, add_line(part1, ft), 0, g1.addrs, g2.addrs, g.addrs.len() as int);
        lemma_extend_trans(g.addrs, g1.addrs, g2.addrs);
    }
}

/// What code generation has recorded once every function is written.
pub open spec fn program_gen(tree: &ProgramTree) -> Gen {
    let part0 = program_start();
    let part1 = add_line(part0, variables_text(tree));
    let ad = program_addrs(tree, line_after(part0, 0));
    let g0 = Gen { counter: 0, flags: Seq::empty(), addrs: Seq::empty() };
    functions_fold(tree, ad, g0, part1, tree.functions@.len() as int).1
}

/// Every address cell `addr_<c>, DEC <v>` of the listing, one for each call
/// of a stack function, holds the line that follows a `jns` line: the line
/// to which the call returns.
pub proof fn lemma_addr_cells(tree: &ProgramTree)
    requires
        tree.wf(),
        names_plain(tree),
    ensures
        forall|k: int|
            0 <= k < program_gen(tree).addrs.len() ==> addr_ok(
                program_text(tree),
                0,
                (#[trigger] program_gen(tree).addrs[k]).1,
            ),
{
    let part0 = program_start();
    let part1 = add_line(part0, variables_text(tree));
    let ad = program_addrs(tree, line_after(part0, 0));
    let g0 = Gen { counter: 0, flags: Seq::empty(), addrs: Seq::empty() };
    lemma_add_line_prefix(Seq::empty(), "jns function_main"@);
    lemma_add_line_prefix(add_line(Seq::empty(), "jns function_main"@), "halt"@);
    lemma_add_line_prefix(part0, variables_text(tree));
    lemma_functions_fold_addrs(tree, ad, g0, part1, tree.functions@.len() as int);
    let (part2, g) = functions_fold(tree, ad, g0, part1, tree.functions@.len() as int);
    lemma_add_line_prefix(part2, lower_text(g));
    lemma_addrs_prefix(part2, add_line(part2, lower_text(g)), 0, g.addrs, 0);
    lemma_addrs_strip(add_line(part2, lower_text(g)), 0, g.addrs, 0);
    assert(program_text(tree) == strip_nl(add_line(part2, lower_text(g))));
}

} // verus!

verus! {

/// The listing depends on the tree alone: equal trees compile to the same
/// text, byte for byte.
pub proof fn lemma_compile_deterministic(a: &ProgramTree, b: &ProgramTree)
    requires
        *a == *b,
    ensures
        program_text(a) == program_text(b),
{
}

} // verus!
