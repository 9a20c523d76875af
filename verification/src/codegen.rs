//! Code generation plans: the core language to the steps that build
//! register-machine bytecode.
//!
//! The generator decides, for each term, which builder steps to take: a
//! literal becomes a constant, a variable a function reference or a lookup
//! of a local, a lambda a skipped-over function body, an application a
//! native call, a call of a definition, an inline lambda frame, or a
//! generic frame. A plan is that sequence of steps; a step that makes a
//! variable is referred to later by its index in the plan, so a plan can
//! be replayed onto any bytecode builder.

use vstd::prelude::*;

use crate::ir::{size, Ir, IrDef};
use crate::optimize::{optimize, optimized_defs};
use crate::text::{concat, owned, str_eq, usize_to_decimal};
use crate::types::NativeRegistry;

verus! {

/// One step of building bytecode. Variables are named by the index of the
/// step that made them.
#[derive(Debug, PartialEq)]
pub enum BuildOp {
    /// A 64-bit integer constant in a new variable.
    I64 { name: String, value: i64 },
    /// A floating-point constant in a new variable, as its literal text.
    F64 { name: String, text: String },
    /// A string constant in a new variable.
    Constant { name: String, text: String },
    /// A new 64-bit variable.
    Var { name: String },
    /// The variable named `name` in scope, or else a new integer 0 named
    /// `fallback`.
    FindVar { name: String, fallback: String },
    Jump(String),
    Label(String),
    Enter,
    Exit,
    Ret,
    PushArg(usize),
    PopArg(usize),
    /// `CopyVar(dst, src)`.
    CopyVar(usize, usize),
    Call(String),
    CallNative(String, u32),
}

/// Whether a step makes a variable.
pub open spec fn makes_var(op: BuildOp) -> bool {
    op is I64 || op is F64 || op is Constant || op is Var || op is FindVar
}

/// Whether `h` names a variable made before step `i`.
pub open spec fn var_before(ops: Seq<BuildOp>, h: int, i: int) -> bool {
    0 <= h < i && makes_var(ops[h])
}

/// Every variable a step uses was made by an earlier step.
pub open spec fn well_formed(ops: Seq<BuildOp>) -> bool {
    forall|i: int|
        0 <= i < ops.len() ==> match #[trigger] ops[i] {
            BuildOp::PushArg(h) => var_before(ops, h as int, i),
            BuildOp::PopArg(h) => var_before(ops, h as int, i),
            BuildOp::CopyVar(d, s) => var_before(ops, d as int, i) && var_before(ops, s as int, i),
            _ => true,
        }
}

/// A step, with its texts as character sequences.
pub enum OpM {
    I64(Seq<char>, i64),
    F64(Seq<char>, Seq<char>),
    Constant(Seq<char>, Seq<char>),
    Var(Seq<char>),
    FindVar(Seq<char>, Seq<char>),
    Jump(Seq<char>),
    Label(Seq<char>),
    Enter,
    Exit,
    Ret,
    PushArg(int),
    PopArg(int),
    CopyVar(int, int),
    Call(Seq<char>),
    CallNative(Seq<char>, u32),
}

pub open spec fn op_model(op: BuildOp) -> OpM {
    match op {
        BuildOp::I64 { name, value } => OpM::I64(name@, value),
        BuildOp::F64 { name, text } => OpM::F64(name@, text@),
        BuildOp::Constant { name, text } => OpM::Constant(name@, text@),
        BuildOp::Var { name } => OpM::Var(name@),
        BuildOp::FindVar { name, fallback } => OpM::FindVar(name@, fallback@),
        BuildOp::Jump(l) => OpM::Jump(l@),
        BuildOp::Label(l) => OpM::Label(l@),
        BuildOp::Enter => OpM::Enter,
        BuildOp::Exit => OpM::Exit,
        BuildOp::Ret => OpM::Ret,
        BuildOp::PushArg(h) => OpM::PushArg(h as int),
        BuildOp::PopArg(h) => OpM::PopArg(h as int),
        BuildOp::CopyVar(d, s) => OpM::CopyVar(d as int, s as int),
        BuildOp::Call(l) => OpM::Call(l@),
        BuildOp::CallNative(n, k) => OpM::CallNative(n@, k),
    }
}

pub open spec fn plan_model(ops: Seq<BuildOp>) -> Seq<OpM> {
    ops.map_values(|op: BuildOp| op_model(op))
}

/// The label `prefix_c`.
pub open spec fn label_text(prefix: Seq<char>, c: usize) -> Seq<char> {
    prefix + "_"@ + crate::text::decimal(c as nat)
}

/// The steps that plan a term, the variable that holds its value, and
/// the label counter after them.
pub struct Gen {
    pub ops: Seq<OpM>,
    pub var: int,
    pub counter: usize,
}

/// The plan of `ir`, its steps starting at index `base`, its labels numbered from `c`;
/// `declared` are the names of the definitions and natives, `natives` those of the natives.
pub open spec fn gen_expr(ir: Ir, declared: Set<Seq<char>>, natives: Set<Seq<char>>, base: int, c: usize) -> Gen
    decreases size(ir), 2nat,
{
    match ir {
        Ir::Int(n) => Gen { ops: seq![OpM::I64(label_text("int"@, c), n)], var: base, counter: c.wrapping_add(1) },
        Ir::Float(t) => Gen {
            ops: seq![OpM::F64(label_text("float"@, c), t@)],
            var: base,
            counter: c.wrapping_add(1),
        },
        Ir::Str(s) => Gen {
            ops: seq![OpM::Constant(label_text("str"@, c), s@)],
            var: base,
            counter: c.wrapping_add(1),
        },
        Ir::Var(v) => if declared.contains(v@) {
            Gen { ops: seq![OpM::I64(label_text("func_ref"@, c), 0)], var: base, counter: c.wrapping_add(1) }
        } else {
            Gen { ops: seq![OpM::FindVar(v@, "undef_"@ + v@)], var: base, counter: c }
        },
        Ir::Lam { param, body } => {
            let c1 = c.wrapping_add(1);
            let c2 = c1.wrapping_add(1);
            let c3 = c2.wrapping_add(1);
            let head = seq![
                OpM::I64(label_text("lam_ref"@, c1), 0),
                OpM::Jump(label_text("lam_skip"@, c2)),
                OpM::Label(label_text("lam"@, c)),
                OpM::Enter,
                OpM::Var(param@),
                OpM::PopArg(base + 4),
                OpM::Var("_closure"@),
                OpM::PopArg(base + 6),
            ];
            let b = gen_expr(*body, declared, natives, base + 8, c3);
            let r = base + 8 + b.ops.len();
            let tail = seq![
                OpM::Var(label_text("lam_ret"@, b.counter)),
                OpM::CopyVar(r, b.var),
                OpM::PushArg(r),
                OpM::Exit,
                OpM::Ret,
                OpM::Label(label_text("lam_skip"@, c2)),
            ];
            Gen { ops: head + b.ops + tail, var: base, counter: b.counter.wrapping_add(1) }
        },
        Ir::App(f, a) => gen_apply(*f, *a, declared, natives, base, c),
    }
}

/// The plan of a call of the native `name` with `arity` on the value of `arg`.
pub open spec fn gen_native_call(
    name: Seq<char>,
    arity: u32,
    arg: Ir,
    declared: Set<Seq<char>>,
    natives: Set<Seq<char>>,
    base: int,
    c: usize,
) -> Gen
    decreases size(arg) + 1, 0nat,
{
    let g = gen_expr(arg, declared, natives, base, c);
    let rv = base + g.ops.len();
    Gen {
        ops: g.ops + seq![
            OpM::Var(label_text("native"@, g.counter)),
            OpM::PushArg(g.var),
            OpM::CallNative(name, arity),
            OpM::PopArg(rv),
        ],
        var: rv,
        counter: g.counter.wrapping_add(1),
    }
}

/// The plan of a call of the definition `name` with the variable `arg_var`.
pub open spec fn gen_generic_call(name: Seq<char>, arg_var: int, base: int, c: usize) -> Gen {
    Gen {
        ops: seq![
            OpM::Var(label_text("call"@, c)),
            OpM::PushArg(arg_var),
            OpM::Enter,
            OpM::Var(name + ".arg"@),
            OpM::PopArg(base + 3),
            OpM::Call("def_"@ + name),
            OpM::PopArg(base),
        ],
        var: base,
        counter: c.wrapping_add(1),
    }
}

/// The plan of the application of `f` to `a` through a generic frame.
pub open spec fn gen_frame_apply(f: Ir, a: Ir, declared: Set<Seq<char>>, natives: Set<Seq<char>>, base: int, c: usize) -> Gen
    decreases size(f) + size(a) + 1, 0nat,
{
    let fg = gen_expr(f, declared, natives, base, c);
    let ag = gen_expr(a, declared, natives, base + fg.ops.len(), fg.counter);
    let rv = base + fg.ops.len() + ag.ops.len();
    let c1 = ag.counter;
    let c2 = c1.wrapping_add(1);
    let c3 = c2.wrapping_add(1);
    Gen {
        ops: fg.ops + ag.ops + seq![
            OpM::Var(label_text("app"@, c1)),
            OpM::PushArg(fg.var),
            OpM::PushArg(ag.var),
            OpM::Enter,
            OpM::Var(label_text("arg"@, c2)),
            OpM::Var(label_text("func"@, c3)),
            OpM::PopArg(rv + 4),
            OpM::PopArg(rv + 5),
            OpM::CopyVar(rv, rv + 4),
            OpM::PushArg(rv),
            OpM::Exit,
            OpM::PopArg(rv),
        ],
        var: rv,
        counter: c3.wrapping_add(1),
    }
}

/// The plan of the application of `f` to `a`: a native call, a call of a
/// definition, an inline lambda frame, or a generic frame.
pub open spec fn gen_apply(f: Ir, a: Ir, declared: Set<Seq<char>>, natives: Set<Seq<char>>, base: int, c: usize) -> Gen
    decreases size(f) + size(a) + 1, 1nat,
{
    match f {
        Ir::Var(v) => if declared.contains(v@) {
            if natives.contains(v@) {
                gen_native_call(v@, 1, a, declared, natives, base, c)
            } else {
                let g = gen_expr(a, declared, natives, base, c);
                let call = gen_generic_call(v@, g.var, base + g.ops.len(), g.counter);
                Gen { ops: g.ops + call.ops, var: call.var, counter: call.counter }
            }
        } else {
            gen_frame_apply(f, a, declared, natives, base, c)
        },
        Ir::App(fi, lhs) => match *fi {
            Ir::Var(name) => if declared.contains(name@) && natives.contains(name@) {
                let l = gen_expr(*lhs, declared, natives, base, c);
                let r = gen_expr(a, declared, natives, base + l.ops.len(), l.counter);
                let rv = base + l.ops.len() + r.ops.len();
                Gen {
                    ops: l.ops + r.ops + seq![
                        OpM::Var(label_text("native"@, r.counter)),
                        OpM::PushArg(l.var),
                        OpM::PushArg(r.var),
                        OpM::CallNative(name@, 2),
                        OpM::PopArg(rv),
                    ],
                    var: rv,
                    counter: r.counter.wrapping_add(1),
                }
            } else {
                gen_frame_apply(f, a, declared, natives, base, c)
            },
            _ => gen_frame_apply(f, a, declared, natives, base, c),
        },
        Ir::Lam { param, body } => {
            let g = gen_expr(a, declared, natives, base, c);
            let rv = base + g.ops.len();
            let head = seq![
                OpM::Var(label_text("app"@, g.counter)),
                OpM::PushArg(g.var),
                OpM::Enter,
                OpM::Var(param@),
                OpM::PopArg(rv + 3),
            ];
            let b = gen_expr(*body, declared, natives, rv + 5, g.counter.wrapping_add(1));
            let rs = rv + 5 + b.ops.len();
            let tail = seq![
                OpM::Var(label_text("app_ret"@, b.counter)),
                OpM::CopyVar(rs, b.var),
                OpM::PushArg(rs),
                OpM::Exit,
                OpM::PopArg(rv),
            ];
            Gen { ops: g.ops + head + b.ops + tail, var: rv, counter: b.counter.wrapping_add(1) }
        },
        _ => gen_frame_apply(f, a, declared, natives, base, c),
    }
}

/// The code generator's state.
pub struct Codegen<'a> {
    ops: Vec<BuildOp>,
    func_names: Vec<String>,
    anon_counter: usize,
    natives: &'a NativeRegistry,
}

proof fn lemma_size_positive(ir: Ir)
    ensures
        size(ir) >= 1,
{
}

/// Whether plan `b` starts with plan `a`.
pub open spec fn plan_extends(a: Seq<BuildOp>, b: Seq<BuildOp>) -> bool {
    a.len() <= b.len() && forall|i: int| 0 <= i < a.len() ==> #[trigger] b[i] == a[i]
}

/// A plan that extends another keeps the other's variables.
proof fn lemma_prefix_var(a: Seq<BuildOp>, b: Seq<BuildOp>, h: int)
    requires
        plan_extends(a, b),
        var_before(a, h, a.len() as int),
    ensures
        var_before(b, h, b.len() as int),
{
    assert(b[h] == a[h]);
}

impl<'a> Codegen<'a> {
    pub closed spec fn plan(&self) -> Seq<BuildOp> {
        self.ops@
    }

    /// The declared names.
    pub closed spec fn names(&self) -> Seq<String> {
        self.func_names@
    }

    pub closed spec fn counter(&self) -> usize {
        self.anon_counter
    }

    pub closed spec fn wf(&self) -> bool {
        well_formed(self.ops@)
    }

    /// The native names.
    pub closed spec fn natives_set(&self) -> Set<Seq<char>> {
        self.natives@
    }

    pub fn new(natives: &'a NativeRegistry) -> (c: Codegen<'a>)
        ensures
            c.wf(),
            c.names().len() == 0,
            c.plan().len() == 0,
            c.counter() == 0,
            c.natives_set() == natives@,
    {
        Codegen { ops: Vec::new(), func_names: Vec::new(), anon_counter: 0, natives }
    }

    /// The plan so far.
    pub fn into_plan(self) -> (ops: Vec<BuildOp>)
        ensures
            ops@ == self.plan(),
    {
        self.ops
    }

    /// `prefix_n` for the next counter value `n`.
    fn fresh_label(&mut self, prefix: &str) -> (s: String)
        ensures
            s@ == prefix@ + "_"@ + crate::text::decimal(old(self).counter() as nat),
            final(self).counter() == old(self).counter().wrapping_add(1),
            final(self).plan() == old(self).plan(),
            final(self).names() == old(self).names(),
            final(self).natives_set() == old(self).natives_set(),
    {
        let n = self.anon_counter;
        self.anon_counter = self.anon_counter.wrapping_add(1);
        concat(&concat(&owned(prefix), "_"), usize_to_decimal(n).as_str())
    }

    /// Add a step that uses no variable.
    fn emit(&mut self, op: BuildOp) -> (h: usize)
        requires
            old(self).wf(),
            !(op is PushArg || op is PopArg || op is CopyVar),
        ensures
            final(self).wf(),
            final(self).plan() == old(self).plan().push(op),
            plan_model(final(self).plan()) == plan_model(old(self).plan()).push(op_model(op)),
            h == old(self).plan().len(),
            final(self).counter() == old(self).counter(),
            final(self).names() == old(self).names(),
            final(self).natives_set() == old(self).natives_set(),
    {
        proof {
            assert(plan_model(old(self).plan().push(op)) =~= plan_model(old(self).plan()).push(op_model(op)));
        }
        let h = self.ops.len();
        self.ops.push(op);
        proof {
            assert forall|i: int| 0 <= i < self.ops@.len() implies match #[trigger] self.ops@[i] {
                BuildOp::PushArg(x) => var_before(self.ops@, x as int, i),
                BuildOp::PopArg(x) => var_before(self.ops@, x as int, i),
                BuildOp::CopyVar(d, s) => var_before(self.ops@, d as int, i) && var_before(self.ops@, s as int, i),
                _ => true,
            } by {
                if i < old(self).ops@.len() {
                    assert(self.ops@[i] == old(self).ops@[i]);
                }
            }
        }
        h
    }

    /// Add a step that uses variables made before it.
    fn emit_use(&mut self, op: BuildOp)
        requires
            old(self).wf(),
            match op {
                BuildOp::PushArg(h) => var_before(old(self).plan(), h as int, old(self).plan().len() as int),
                BuildOp::PopArg(h) => var_before(old(self).plan(), h as int, old(self).plan().len() as int),
                BuildOp::CopyVar(d, s) => var_before(old(self).plan(), d as int, old(self).plan().len() as int)
                    && var_before(old(self).plan(), s as int, old(self).plan().len() as int),
                _ => false,
            },
        ensures
            final(self).wf(),
            final(self).plan() == old(self).plan().push(op),
            plan_model(final(self).plan()) == plan_model(old(self).plan()).push(op_model(op)),
            final(self).counter() == old(self).counter(),
            final(self).names() == old(self).names(),
            final(self).natives_set() == old(self).natives_set(),
    {
        proof {
            assert(plan_model(old(self).plan().push(op)) =~= plan_model(old(self).plan()).push(op_model(op)));
        }
        self.ops.push(op);
        proof {
            assert forall|i: int| 0 <= i < self.ops@.len() implies match #[trigger] self.ops@[i] {
                BuildOp::PushArg(x) => var_before(self.ops@, x as int, i),
                BuildOp::PopArg(x) => var_before(self.ops@, x as int, i),
                BuildOp::CopyVar(d, s) => var_before(self.ops@, d as int, i) && var_before(self.ops@, s as int, i),
                _ => true,
            } by {
                if i < old(self).ops@.len() {
                    assert(self.ops@[i] == old(self).ops@[i]);
                }
            }
        }
    }

    /// Whether `name` is a definition or a native.
    pub closed spec fn declares(&self, name: Seq<char>) -> bool {
        names_declared(self.func_names@, name)
    }

    /// The names of the definitions and natives.
    pub closed spec fn declared(&self) -> Set<Seq<char>> {
        Set::new(|n: Seq<char>| names_declared(self.func_names@, n))
    }

    fn is_function(&self, name: &String) -> (b: bool)
        ensures
            b == self.declares(name@),
    {
        let mut i: usize = 0;
        while i < self.func_names.len()
            invariant
                i <= self.func_names@.len(),
                forall|j: int| 0 <= j < i ==> (#[trigger] self.func_names@[j])@ != name@,
            decreases self.func_names@.len() - i,
        {
            if str_eq(&self.func_names[i], name) {
                return true;
            }
            i = i + 1;
        }
        false
    }

    /// The plan of one term; the variable that holds its value.
    pub fn compile_expr(&mut self, ir: &Ir) -> (h: usize)
        requires
            old(self).wf(),
        ensures
            final(self).wf(),
            plan_extends(old(self).plan(), final(self).plan()),
            var_before(final(self).plan(), h as int, final(self).plan().len() as int),
            final(self).names() == old(self).names(),
            final(self).natives_set() == old(self).natives_set(),
            ({
                let g = gen_expr(*ir, old(self).declared(), old(self).natives_set(), old(self).plan().len() as int, old(self).counter());
                &&& plan_model(final(self).plan()) == plan_model(old(self).plan()) + g.ops
                &&& h == g.var
                &&& final(self).counter() == g.counter
            }),
        decreases size(*ir), 1nat,
    {
        let ghost pm0 = plan_model(self.plan());
        let ghost g = gen_expr(*ir, self.declared(), self.natives_set(), self.plan().len() as int, self.counter());
        match ir {
            Ir::Int(n) => {
                let name = self.fresh_label("int");
                let h = self.emit(BuildOp::I64 { name, value: *n });
                proof {
                    assert(plan_model(self.plan()) =~= pm0 + g.ops);
                }
                h
            },
            Ir::Float(t) => {
                let name = self.fresh_label("float");
                let h = self.emit(BuildOp::F64 { name, text: t.clone() });
                proof {
                    assert(plan_model(self.plan()) =~= pm0 + g.ops);
                }
                h
            },
            Ir::Str(s) => {
                let name = self.fresh_label("str");
                let h = self.emit(BuildOp::Constant { name, text: s.clone() });
                proof {
                    assert(plan_model(self.plan()) =~= pm0 + g.ops);
                }
                h
            },
            Ir::Var(v) => {
                if self.is_function(v) {
                    let name = self.fresh_label("func_ref");
                    let h = self.emit(BuildOp::I64 { name, value: 0 });
                    proof {
                        assert(plan_model(self.plan()) =~= pm0 + g.ops);
                    }
                    h
                } else {
                    let fallback = concat(&owned("undef_"), v.as_str());
                    let h = self.emit(BuildOp::FindVar { name: v.clone(), fallback });
                    proof {
                        assert(plan_model(self.plan()) =~= pm0 + g.ops);
                    }
                    h
                }
            },
            Ir::Lam { param, body } => {
                let ghost base = self.plan().len() as int;
                let ghost c = self.counter();
                let lam_label = self.fresh_label("lam");
                let lam_ref = self.fresh_label("lam_ref");
                let lam_ref_var = self.emit(BuildOp::I64 { name: lam_ref, value: 0 });
                let skip = self.fresh_label("lam_skip");
                self.emit(BuildOp::Jump(skip.clone()));
                self.emit(BuildOp::Label(lam_label));
                self.emit(BuildOp::Enter);
                let param_var = self.emit(BuildOp::Var { name: param.clone() });
                self.emit_use(BuildOp::PopArg(param_var));
                let closure_slot = self.emit(BuildOp::Var { name: owned("_closure") });
                self.emit_use(BuildOp::PopArg(closure_slot));
                let ghost c1 = c.wrapping_add(1);
                let ghost c2 = c1.wrapping_add(1);
                let ghost head = seq![
                    OpM::I64(label_text("lam_ref"@, c1), 0),
                    OpM::Jump(label_text("lam_skip"@, c2)),
                    OpM::Label(label_text("lam"@, c)),
                    OpM::Enter,
                    OpM::Var(param@),
                    OpM::PopArg(base + 4),
                    OpM::Var("_closure"@),
                    OpM::PopArg(base + 6),
                ];
                proof {
                    assert(plan_model(self.plan()) =~= pm0 + head);
                }
                let ghost mid = self.plan();
                let body_result = self.compile_expr(body);
                proof {
                    lemma_prefix_var(mid, self.plan(), lam_ref_var as int);
                }
                let ghost pm1 = plan_model(self.plan());
                let lam_ret_label = self.fresh_label("lam_ret");
                let ret = self.emit(BuildOp::Var { name: lam_ret_label });
                self.emit_use(BuildOp::CopyVar(ret, body_result));
                self.emit_use(BuildOp::PushArg(ret));
                self.emit(BuildOp::Exit);
                self.emit(BuildOp::Ret);
                self.emit(BuildOp::Label(skip));
                proof {
                    let b = gen_expr(**body, old(self).declared(), old(self).natives_set(), base + 8, c2.wrapping_add(1));
                    let r = base + 8 + b.ops.len();
                    let tail = seq![
                        OpM::Var(label_text("lam_ret"@, b.counter)),
                        OpM::CopyVar(r, b.var),
                        OpM::PushArg(r),
                        OpM::Exit,
                        OpM::Ret,
                        OpM::Label(label_text("lam_skip"@, c2)),
                    ];
                    assert(pm1 == pm0 + head + b.ops);
                    assert(plan_model(self.plan()) =~= pm1 + tail);
                    assert(g.ops == head + b.ops + tail);
                    assert(plan_model(self.plan()) =~= pm0 + g.ops);
                    assert(plan_extends(old(self).plan(), self.plan()));
                }
                lam_ref_var
            },
            Ir::App(f, a) => self.compile_apply(f, a),
        }
    }

    /// The plan of an application: a native call, a call of a definition,
    /// an inline lambda frame, or a generic frame.
    #[verifier::rlimit(100)]
    #[verifier::spinoff_prover]
    pub fn compile_apply(&mut self, f: &Ir, a: &Ir) -> (h: usize)
        requires
            old(self).wf(),
        ensures
            final(self).wf(),
            plan_extends(old(self).plan(), final(self).plan()),
            var_before(final(self).plan(), h as int, final(self).plan().len() as int),
            final(self).names() == old(self).names(),
            final(self).natives_set() == old(self).natives_set(),
            ({
                let g = gen_apply(*f, *a, old(self).declared(), old(self).natives_set(), old(self).plan().len() as int, old(self).counter());
                &&& plan_model(final(self).plan()) == plan_model(old(self).plan()) + g.ops
                &&& h == g.var
                &&& final(self).counter() == g.counter
            }),
        decreases size(*f) + size(*a) + 1, 0nat,
    {
        proof {
            lemma_size_positive(*f);
            lemma_size_positive(*a);
        }
        let ghost pm0 = plan_model(self.plan());
        let ghost base = self.plan().len() as int;
        let ghost c = self.counter();
        let ghost declared = self.declared();
        let ghost natives = self.natives_set();
        if let Ir::Var(func_name) = f {
            if self.is_function(func_name) {
                if self.natives.is_native(func_name.as_str()) {
                    return self.compile_native_call(func_name, 1, a);
                }
                let arg_var = self.compile_expr(a);
                let ghost pm1 = plan_model(self.plan());
                let h = self.compile_generic_call(func_name, arg_var);
                proof {
                    let g = gen_expr(*a, declared, natives, base, c);
                    let call = gen_generic_call(func_name@, g.var, base + g.ops.len(), g.counter);
                    assert(plan_model(self.plan()) == pm1 + call.ops);
                    assert(plan_model(self.plan()) =~= pm0 + (g.ops + call.ops));
                }
                return h;
            }
        }
        if let Ir::App(f_inner, lhs) = f {
            if let Ir::Var(func_name) = &**f_inner {
                if self.is_function(func_name) && self.natives.is_native(func_name.as_str()) {
                    let ghost p0 = self.plan();
                    let lhs_var = self.compile_expr(lhs);
                    let ghost p1 = self.plan();
                    let ghost pm1 = plan_model(self.plan());
                    let rhs_var = self.compile_expr(a);
                    let ghost pm2 = plan_model(self.plan());
                    proof {
                        lemma_prefix_var(p1, self.plan(), lhs_var as int);
                    }
                    let result = self.fresh_label("native");
                    let result_var = self.emit(BuildOp::Var { name: result });
                    self.emit_use(BuildOp::PushArg(lhs_var));
                    self.emit_use(BuildOp::PushArg(rhs_var));
                    self.emit(BuildOp::CallNative(func_name.clone(), 2));
                    self.emit_use(BuildOp::PopArg(result_var));
                    proof {
                        assert(plan_extends(p0, self.plan()));
                        let l = gen_expr(**lhs, declared, natives, base, c);
                        let r = gen_expr(*a, declared, natives, base + l.ops.len(), l.counter);
                        let rv = base + l.ops.len() + r.ops.len();
                        let tail = seq![
                            OpM::Var(label_text("native"@, r.counter)),
                            OpM::PushArg(l.var),
                            OpM::PushArg(r.var),
                            OpM::CallNative(func_name@, 2),
                            OpM::PopArg(rv),
                        ];
                        assert(pm2 == pm0 + l.ops + r.ops);
                        assert(plan_model(self.plan()) =~= pm2 + tail);
                        assert(plan_model(self.plan()) =~= pm0 + (l.ops + r.ops + tail));
                    }
                    return result_var;
                }
            }
        }
        if let Ir::Lam { param, body } = f {
            let ghost p0 = self.plan();
            let arg_var = self.compile_expr(a);
            let ghost pm1 = plan_model(self.plan());
            let result = self.fresh_label("app");
            let result_var = self.emit(BuildOp::Var { name: result });
            self.emit_use(BuildOp::PushArg(arg_var));
            self.emit(BuildOp::Enter);
            let param_var = self.emit(BuildOp::Var { name: param.clone() });
            self.emit_use(BuildOp::PopArg(param_var));
            let ghost p1 = self.plan();
            let ghost pm2 = plan_model(self.plan());
            let body_result = self.compile_expr(body);
            let ghost pm3 = plan_model(self.plan());
            proof {
                lemma_prefix_var(p1, self.plan(), result_var as int);
            }
            let app_ret_label = self.fresh_label("app_ret");
            let ret_slot = self.emit(BuildOp::Var { name: app_ret_label });
            self.emit_use(BuildOp::CopyVar(ret_slot, body_result));
            self.emit_use(BuildOp::PushArg(ret_slot));
            self.emit(BuildOp::Exit);
            self.emit_use(BuildOp::PopArg(result_var));
            proof {
                assert(plan_extends(p0, self.plan()));
                let g = gen_expr(*a, declared, natives, base, c);
                let rv = base + g.ops.len();
                let head = seq![
                    OpM::Var(label_text("app"@, g.counter)),
                    OpM::PushArg(g.var),
                    OpM::Enter,
                    OpM::Var(param@),
                    OpM::PopArg(rv + 3),
                ];
                let b = gen_expr(**body, declared, natives, rv + 5, g.counter.wrapping_add(1));
                let rs = rv + 5 + b.ops.len();
                let tail = seq![
                    OpM::Var(label_text("app_ret"@, b.counter)),
                    OpM::CopyVar(rs, b.var),
                    OpM::PushArg(rs),
                    OpM::Exit,
                    OpM::PopArg(rv),
                ];
                assert(pm1 == pm0 + g.ops);
                assert(pm2 =~= pm1 + head);
                assert(pm3 == pm2 + b.ops);
                assert(plan_model(self.plan()) =~= pm3 + tail);
                assert(plan_model(self.plan()) =~= pm0 + (g.ops + head + b.ops + tail));
            }
            return result_var;
        }
        let ghost p0 = self.plan();
        let f_var = self.compile_expr(f);
        let ghost p1 = self.plan();
        let a_var = self.compile_expr(a);
        let ghost pm2 = plan_model(self.plan());
        proof {
            lemma_prefix_var(p1, self.plan(), f_var as int);
        }
        let result = self.fresh_label("app");
        let result_var = self.emit(BuildOp::Var { name: result });
        self.emit_use(BuildOp::PushArg(f_var));
        self.emit_use(BuildOp::PushArg(a_var));
        self.emit(BuildOp::Enter);
        let arg_label = self.fresh_label("arg");
        let func_label = self.fresh_label("func");
        let temp_arg = self.emit(BuildOp::Var { name: arg_label });
        let temp_func = self.emit(BuildOp::Var { name: func_label });
        self.emit_use(BuildOp::PopArg(temp_arg));
        self.emit_use(BuildOp::PopArg(temp_func));
        self.emit_use(BuildOp::CopyVar(result_var, temp_arg));
        self.emit_use(BuildOp::PushArg(result_var));
        self.emit(BuildOp::Exit);
        self.emit_use(BuildOp::PopArg(result_var));
        proof {
            assert(plan_extends(p0, self.plan()));
            let fg = gen_expr(*f, declared, natives, base, c);
            let ag = gen_expr(*a, declared, natives, base + fg.ops.len(), fg.counter);
            let rv = base + fg.ops.len() + ag.ops.len();
            let c1 = ag.counter;
            let c2 = c1.wrapping_add(1);
            let c3 = c2.wrapping_add(1);
            let tail = seq![
                OpM::Var(label_text("app"@, c1)),
                OpM::PushArg(fg.var),
                OpM::PushArg(ag.var),
                OpM::Enter,
                OpM::Var(label_text("arg"@, c2)),
                OpM::Var(label_text("func"@, c3)),
                OpM::PopArg(rv + 4),
                OpM::PopArg(rv + 5),
                OpM::CopyVar(rv, rv + 4),
                OpM::PushArg(rv),
                OpM::Exit,
                OpM::PopArg(rv),
            ];
            assert(pm2 == pm0 + fg.ops + ag.ops);
            assert(plan_model(self.plan()) =~= pm2 + tail);
            assert(plan_model(self.plan()) =~= pm0 + (fg.ops + ag.ops + tail));
            assert(gen_frame_apply(*f, *a, declared, natives, base, c).ops == fg.ops + ag.ops + tail);
        }
        result_var
    }

    /// A native call of arity `arity` with one argument term.
    fn compile_native_call(&mut self, func_name: &String, arity: u32, arg: &Ir) -> (h: usize)
        requires
            old(self).wf(),
        ensures
            final(self).wf(),
            plan_extends(old(self).plan(), final(self).plan()),
            var_before(final(self).plan(), h as int, final(self).plan().len() as int),
            final(self).names() == old(self).names(),
            final(self).natives_set() == old(self).natives_set(),
            ({
                let g = gen_native_call(
                    func_name@,
                    arity,
                    *arg,
                    old(self).declared(),
                    old(self).natives_set(),
                    old(self).plan().len() as int,
                    old(self).counter(),
                );
                &&& plan_model(final(self).plan()) == plan_model(old(self).plan()) + g.ops
                &&& h == g.var
                &&& final(self).counter() == g.counter
            }),
        decreases size(*arg) + 1, 0nat,
    {
        let ghost p0 = plan_model(self.plan());
        let arg_var = self.compile_expr(arg);
        let ghost p1 = plan_model(self.plan());
        let result = self.fresh_label("native");
        let result_var = self.emit(BuildOp::Var { name: result });
        self.emit_use(BuildOp::PushArg(arg_var));
        self.emit(BuildOp::CallNative(func_name.clone(), arity));
        self.emit_use(BuildOp::PopArg(result_var));
        proof {
            let g = gen_native_call(
                func_name@,
                arity,
                *arg,
                old(self).declared(),
                old(self).natives_set(),
                old(self).plan().len() as int,
                old(self).counter(),
            );
            assert(plan_model(self.plan()) =~= plan_model(old(self).plan()) + g.ops);
        }
        result_var
    }

    /// A call of the definition `func_name` with the variable `arg_var`.
    fn compile_generic_call(&mut self, func_name: &String, arg_var: usize) -> (h: usize)
        requires
            old(self).wf(),
            var_before(old(self).plan(), arg_var as int, old(self).plan().len() as int),
        ensures
            final(self).wf(),
            plan_extends(old(self).plan(), final(self).plan()),
            var_before(final(self).plan(), h as int, final(self).plan().len() as int),
            final(self).names() == old(self).names(),
            final(self).natives_set() == old(self).natives_set(),
            ({
                let g = gen_generic_call(func_name@, arg_var as int, old(self).plan().len() as int, old(self).counter());
                &&& plan_model(final(self).plan()) == plan_model(old(self).plan()) + g.ops
                &&& h == g.var
                &&& final(self).counter() == g.counter
            }),
    {
        let result = self.fresh_label("call");
        let result_var = self.emit(BuildOp::Var { name: result });
        self.emit_use(BuildOp::PushArg(arg_var));
        self.emit(BuildOp::Enter);
        let callee_arg = self.emit(BuildOp::Var { name: concat(&owned(func_name.as_str()), ".arg") });
        self.emit_use(BuildOp::PopArg(callee_arg));
        self.emit(BuildOp::Call(concat(&owned("def_"), func_name.as_str())));
        self.emit_use(BuildOp::PopArg(result_var));
        proof {
            let g = gen_generic_call(func_name@, arg_var as int, old(self).plan().len() as int, old(self).counter());
            assert(plan_model(self.plan()) =~= plan_model(old(self).plan()) + g.ops);
        }
        result_var
    }
}

/// The steps that call the entry definition `entry` once the program is
/// loaded.
pub open spec fn entry_steps(plan: Seq<BuildOp>, entry: Seq<char>) -> bool {
    let n = plan.len() as int;
    &&& n >= 9
    &&& plan[n - 9] matches BuildOp::I64 { name, value } && name@ == "entry.dummy"@ && value == 0
    &&& plan[n - 8] == BuildOp::PushArg((n - 9) as usize)
    &&& plan[n - 7] is Enter
    &&& plan[n - 6] matches BuildOp::Var { name } && name@ == "entry.slot"@
    &&& plan[n - 5] == BuildOp::PopArg((n - 6) as usize)
    &&& plan[n - 4] matches BuildOp::Call(label) && label@ == "def_"@ + entry
    &&& plan[n - 3] matches BuildOp::Var { name } && name@ == "entry.ret"@
    &&& plan[n - 2] == BuildOp::PopArg((n - 3) as usize)
    &&& plan[n - 1] is Exit
}

/// Whether `name` is among `names`.
pub open spec fn names_declared(names: Seq<String>, name: Seq<char>) -> bool {
    exists|i: int| 0 <= i < names.len() && (#[trigger] names[i])@ == name
}

/// Whether one of the first `upto` definitions declares `name`.
pub open spec fn defs_declare(defs: Seq<IrDef>, upto: int, name: Seq<char>) -> bool {
    exists|j: int| 0 <= j < upto && declares_function(#[trigger] defs[j], name)
}

/// Whether a definition declares `name` as a function.
pub open spec fn declares_function(d: IrDef, name: Seq<char>) -> bool {
    match d {
        IrDef::Bind { name: n, .. } => n@ == name,
        IrDef::Native { name: n, .. } => n@ == name,
        IrDef::Infix { .. } => false,
    }
}

/// The plan of the definition `name = expr`: a function body labelled
/// `def_name`, jumped over when reached in sequence.
pub open spec fn gen_definition(
    name: Seq<char>,
    expr: Ir,
    declared: Set<Seq<char>>,
    natives: Set<Seq<char>>,
    base: int,
    c: usize,
) -> Gen {
    let label = "def_"@ + name;
    let skip = label + "_skip"@;
    let head = seq![OpM::Jump(skip), OpM::Label(label), OpM::Enter, OpM::Var(name + ".ret"@)];
    let b = gen_expr(expr, declared, natives, base + 4, c);
    let tail = seq![OpM::CopyVar(base + 3, b.var), OpM::PushArg(base + 3), OpM::Exit, OpM::Ret, OpM::Label(skip)];
    Gen { ops: head + b.ops + tail, var: base + 3, counter: b.counter }
}

/// The plans of the `define`s among `defs[k..]`, and the label counter after them.
pub open spec fn gen_definitions(
    defs: Seq<IrDef>,
    k: int,
    declared: Set<Seq<char>>,
    natives: Set<Seq<char>>,
    base: int,
    c: usize,
) -> (Seq<OpM>, usize)
    decreases defs.len() - k,
{
    if k < 0 || k >= defs.len() {
        (Seq::empty(), c)
    } else {
        match defs[k] {
            IrDef::Bind { name, expr } => {
                let g = gen_definition(name@, expr, declared, natives, base, c);
                let rest = gen_definitions(defs, k + 1, declared, natives, base + g.ops.len(), g.counter);
                (g.ops + rest.0, rest.1)
            },
            _ => gen_definitions(defs, k + 1, declared, natives, base, c),
        }
    }
}

/// The steps that call the entry definition `entry`, from index `base`.
pub open spec fn entry_ops(entry: Seq<char>, base: int) -> Seq<OpM> {
    seq![
        OpM::I64("entry.dummy"@, 0),
        OpM::PushArg(base),
        OpM::Enter,
        OpM::Var("entry.slot"@),
        OpM::PopArg(base + 3),
        OpM::Call("def_"@ + entry),
        OpM::Var("entry.ret"@),
        OpM::PopArg(base + 6),
        OpM::Exit,
    ]
}

/// The names that `defs` declare as functions.
pub open spec fn defs_declared(defs: Seq<IrDef>) -> Set<Seq<char>> {
    Set::new(|n: Seq<char>| defs_declare(defs, defs.len() as int, n))
}

/// The plan of a program: its definitions, then the call of the entry
/// point when it is declared.
pub open spec fn gen_program(
    defs: Seq<IrDef>,
    entry: Option<Seq<char>>,
    natives: Set<Seq<char>>,
    base: int,
    c: usize,
) -> Seq<OpM> {
    let declared = defs_declared(defs);
    let d = gen_definitions(defs, 0, declared, natives, base, c).0;
    match entry {
        Some(e) => if declared.contains(e) {
            d + entry_ops(e, base + d.len())
        } else {
            d
        },
        None => d,
    }
}

impl<'a> Codegen<'a> {
    /// The plan of a definition: a function body labelled `def_name`,
    /// jumped over when reached in sequence.
    fn compile_definition(&mut self, name: &String, expr: &Ir)
        requires
            old(self).wf(),
        ensures
            final(self).wf(),
            plan_extends(old(self).plan(), final(self).plan()),
            final(self).names() == old(self).names(),
            final(self).natives_set() == old(self).natives_set(),
            ({
                let g = gen_definition(
                    name@,
                    *expr,
                    old(self).declared(),
                    old(self).natives_set(),
                    old(self).plan().len() as int,
                    old(self).counter(),
                );
                &&& plan_model(final(self).plan()) == plan_model(old(self).plan()) + g.ops
                &&& final(self).counter() == g.counter
            }),
    {
        let ghost pm0 = plan_model(self.plan());
        let label = concat(&owned("def_"), name.as_str());
        let skip = concat(&label, "_skip");
        self.emit(BuildOp::Jump(skip.clone()));
        self.emit(BuildOp::Label(label));
        self.emit(BuildOp::Enter);
        let ret = self.emit(BuildOp::Var { name: concat(&owned(name.as_str()), ".ret") });
        let ghost p1 = self.plan();
        let ghost pm1 = plan_model(self.plan());
        let result = self.compile_expr(expr);
        let ghost pm2 = plan_model(self.plan());
        proof {
            lemma_prefix_var(p1, self.plan(), ret as int);
        }
        self.emit_use(BuildOp::CopyVar(ret, result));
        self.emit_use(BuildOp::PushArg(ret));
        self.emit(BuildOp::Exit);
        self.emit(BuildOp::Ret);
        self.emit(BuildOp::Label(skip));
        proof {
            let base = old(self).plan().len() as int;
            let lab = "def_"@ + name@;
            let sk = lab + "_skip"@;
            let head = seq![OpM::Jump(sk), OpM::Label(lab), OpM::Enter, OpM::Var(name@ + ".ret"@)];
            let b = gen_expr(*expr, old(self).declared(), old(self).natives_set(), base + 4, old(self).counter());
            let tail = seq![OpM::CopyVar(base + 3, b.var), OpM::PushArg(base + 3), OpM::Exit, OpM::Ret, OpM::Label(sk)];
            assert(pm1 =~= pm0 + head);
            assert(pm2 == pm1 + b.ops);
            assert(plan_model(self.plan()) =~= pm2 + tail);
            assert(plan_model(self.plan()) =~= pm0 + (head + b.ops + tail));
        }
    }

    /// The plan of a program: every `define` as a function, then, when
    /// `entry_point` names a definition or native, a call of it.
    pub fn compile_program(&mut self, defs: &[IrDef], entry_point: Option<&str>)
        requires
            old(self).wf(),
            old(self).names().len() == 0,
        ensures
            final(self).wf(),
            match entry_point {
                Some(e) => (exists|i: int| 0 <= i < defs@.len() && declares_function(#[trigger] defs@[i], e@))
                    ==> entry_steps(final(self).plan(), e@),
                None => true,
            },
            plan_model(final(self).plan()) == plan_model(old(self).plan()) + gen_program(
                defs@,
                match entry_point {
                    Some(e) => Some(e@),
                    None => None,
                },
                old(self).natives_set(),
                old(self).plan().len() as int,
                old(self).counter(),
            ),
    {
        let mut i: usize = 0;
        while i < defs.len()
            invariant
                self.wf(),
                i <= defs@.len(),
                forall|n: Seq<char>| #[trigger] names_declared(self.names(), n) == defs_declare(defs@, i as int, n),
                self.plan() == old(self).plan(),
                self.counter() == old(self).counter(),
                self.natives_set() == old(self).natives_set(),
            decreases defs@.len() - i,
        {
            let ghost before = self.names();
            match &defs[i] {
                IrDef::Bind { name, .. } | IrDef::Native { name, .. } => {
                    self.func_names.push(name.clone());
                },
                IrDef::Infix { .. } => {},
            }
            proof {
                assert forall|n: Seq<char>| #[trigger] names_declared(self.names(), n) == defs_declare(defs@, i + 1, n) by {
                    assert(names_declared(before, n) == defs_declare(defs@, i as int, n));
                    if names_declared(self.names(), n) {
                        let k = choose|k: int| 0 <= k < self.func_names@.len() && (#[trigger] self.func_names@[k])@ == n;
                        if k < before.len() {
                            assert(before[k] == self.func_names@[k]);
                            assert(names_declared(before, n));
                            let j = choose|j: int| 0 <= j < i && declares_function(#[trigger] defs@[j], n);
                            assert(defs_declare(defs@, i + 1, n));
                        } else {
                            assert(declares_function(defs@[i as int], n));
                            assert(defs_declare(defs@, i + 1, n));
                        }
                    }
                    if defs_declare(defs@, i + 1, n) {
                        let j = choose|j: int| 0 <= j < i + 1 && declares_function(#[trigger] defs@[j], n);
                        if j < i {
                            assert(defs_declare(defs@, i as int, n));
                            assert(names_declared(before, n));
                            let k2 = choose|k2: int| 0 <= k2 < before.len() && (#[trigger] before[k2])@ == n;
                            assert(self.func_names@[k2] == before[k2]);
                        } else {
                            assert(self.func_names@[before.len() as int]@ == n);
                        }
                    }
                }
            }
            i = i + 1;
        }
        let ghost names0 = self.names();
        let ghost declared = defs_declared(defs@);
        let ghost natives = self.natives_set();
        let ghost total = gen_definitions(defs@, 0, declared, natives, self.plan().len() as int, self.counter());
        proof {
            assert(self.declared() =~= declared);
            assert(plan_model(self.plan()) + total.0 =~= plan_model(old(self).plan()) + total.0);
        }
        let mut k: usize = 0;
        while k < defs.len()
            invariant
                self.wf(),
                k <= defs@.len(),
                self.names() == names0,
                forall|n: Seq<char>| #[trigger] names_declared(names0, n) == defs_declare(defs@, defs@.len() as int, n),
                self.declared() == declared,
                self.natives_set() == natives,
                plan_model(old(self).plan()) + total.0 == plan_model(self.plan()) + gen_definitions(
                    defs@,
                    k as int,
                    declared,
                    natives,
                    self.plan().len() as int,
                    self.counter(),
                ).0,
            decreases defs@.len() - k,
        {
            let ghost pm = plan_model(self.plan());
            let ghost base = self.plan().len() as int;
            let ghost c = self.counter();
            if let IrDef::Bind { name, expr } = &defs[k] {
                self.compile_definition(name, expr);
                proof {
                    let g = gen_definition(name@, *expr, declared, natives, base, c);
                    let rest = gen_definitions(defs@, k + 1, declared, natives, base + g.ops.len(), g.counter);
                    assert(plan_model(self.plan()).len() == self.plan().len());
                    assert(pm + (g.ops + rest.0) =~= (pm + g.ops) + rest.0);
                }
            }
            k = k + 1;
        }
        proof {
            assert(plan_model(self.plan()) + Seq::<OpM>::empty() =~= plan_model(self.plan()));
            assert(plan_model(self.plan()) == plan_model(old(self).plan()) + total.0);
            assert(plan_model(self.plan()).len() == self.plan().len());
            assert(plan_model(old(self).plan()).len() == old(self).plan().len());
        }
        let ghost pmd = plan_model(self.plan());
        if let Some(entry) = entry_point {
            let entry_name = owned(entry);
            if self.is_function(&entry_name) {
                let label = concat(&owned("def_"), entry);
                let dummy = self.emit(BuildOp::I64 { name: owned("entry.dummy"), value: 0 });
                self.emit_use(BuildOp::PushArg(dummy));
                self.emit(BuildOp::Enter);
                let slot = self.emit(BuildOp::Var { name: owned("entry.slot") });
                self.emit_use(BuildOp::PopArg(slot));
                self.emit(BuildOp::Call(label));
                let ret = self.emit(BuildOp::Var { name: owned("entry.ret") });
                self.emit_use(BuildOp::PopArg(ret));
                self.emit(BuildOp::Exit);
                proof {
                    assert(plan_model(self.plan()) =~= pmd + entry_ops(entry@, pmd.len() as int));
                    assert(pmd + entry_ops(entry@, pmd.len() as int) =~= plan_model(old(self).plan()) + (total.0
                        + entry_ops(entry@, pmd.len() as int)));
                }
            }
        }
    }
}

/// The native names that `defs` declare.
pub open spec fn declared_natives(defs: Seq<IrDef>) -> Set<Seq<char>> {
    Set::new(|n: Seq<char>| exists|i: int| 0 <= i < defs.len() && #[trigger] crate::types::native_name(defs[i]) == Some(n))
}

/// Plan a program with an entry point and a registry of native names.
pub fn compile_with(defs: &[IrDef], entry_point: Option<&str>, nfi: &NativeRegistry) -> (plan: Vec<BuildOp>)
    ensures
        well_formed(plan@),
        match entry_point {
            Some(e) => (exists|i: int| 0 <= i < defs@.len() && declares_function(#[trigger] defs@[i], e@))
                ==> entry_steps(plan@, e@),
            None => true,
        },
        plan_model(plan@) == gen_program(
            defs@,
            match entry_point {
                Some(e) => Some(e@),
                None => None,
            },
            nfi@,
            0,
            0,
        ),
{
    let mut cg = Codegen::new(nfi);
    proof {
        assert(plan_model(cg.plan()) =~= Seq::<OpM>::empty());
    }
    cg.compile_program(defs, entry_point);
    let plan = cg.into_plan();
    proof {
        assert(Seq::<OpM>::empty() + gen_program(
            defs@,
            match entry_point {
                Some(e) => Some(e@),
                None => None,
            },
            nfi@,
            0,
            0,
        ) =~= gen_program(
            defs@,
            match entry_point {
                Some(e) => Some(e@),
                None => None,
            },
            nfi@,
            0,
            0,
        ));
    }
    plan
}

/// Plan a program without an entry point, its natives the ones it declares.
pub fn compile(defs: &[IrDef], _program_name: &str) -> (plan: Vec<BuildOp>)
    ensures
        well_formed(plan@),
        plan_model(plan@) == gen_program(defs@, None, declared_natives(defs@), 0, 0),
{
    let nfi = NativeRegistry::from_ir(defs);
    proof {
        assert(nfi@ =~= declared_natives(defs@));
    }
    compile_with(defs, None, &nfi)
}

/// Optimise a program, then plan it without an entry point.
pub fn compile_program(defs: &[IrDef], _program_name: &str) -> (plan: Vec<BuildOp>)
    ensures
        well_formed(plan@),
        exists|opt: Seq<IrDef>| #[trigger] optimized_defs(defs@, opt) && plan_model(plan@) == gen_program(
            opt,
            None,
            declared_natives(opt),
            0,
            0,
        ),
{
    let optimized = optimize(defs);
    let nfi = NativeRegistry::from_ir(optimized.as_slice());
    proof {
        assert(nfi@ =~= declared_natives(optimized@));
    }
    let plan = compile_with(optimized.as_slice(), None, &nfi);
    proof {
        assert(optimized_defs(defs@, optimized@));
    }
    plan
}

} // verus!
