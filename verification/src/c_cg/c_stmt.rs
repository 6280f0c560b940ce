//! The statement/scope engine: one scope owns the growing list of top-level
//! declarations, the namespace used for mangling, the rendering dialect, the
//! set of names declared in the active block, and the active block's text.
//! Nested scopes are derived from a parent, write into their own text
//! buffer, and are folded back as one opaque compound statement; the list of
//! top-level declarations is threaded through explicitly.

use crate::c_cg::c_type::{type_ok, type_pure, type_text, CType};
use crate::c_cg::c_value::{val_text, value_ok, value_pure, CValue};
use crate::c_cg::{CDialect, CError};
use crate::escape;
use crate::escape::{is_temp_name, mangle_qualified};
use vstd::prelude::*;

verus! {

pub type Variable = String;

/// One emission scope.
pub struct Context {
    /// The shared collection of top-level declarations, in emission order.
    pub globals: Vec<String>,
    /// The namespace every name is mangled against.
    pub module: String,
    /// The rendering dialect of every render call made through this scope.
    pub dialect: CDialect,
    /// The names already declared in the active block.
    pub variables: Vec<Variable>,
    /// The active block's in-progress text.
    pub current_source: String,
}

/// The texts of the declared names of a scope, in declaration order.
pub open spec fn var_texts(ctx: Context) -> Seq<Seq<char>> {
    ctx.variables@.map_values(|s: String| s@)
}

/// The texts of the top-level declarations of a scope, in emission order.
pub open spec fn global_texts(ctx: Context) -> Seq<Seq<char>> {
    ctx.globals@.map_values(|s: String| s@)
}

/// Whether the name `n` is declared in the active block of `ctx`.
pub open spec fn is_declared(ctx: Context, n: Seq<char>) -> bool {
    exists|i: int| 0 <= i < var_texts(ctx).len() && var_texts(ctx)[i] == n
}

/// A render call that may register top-level declarations but touches
/// nothing else: namespace, dialect, declared names and the statement buffer
/// stay as they were, and the declaration list only grows at the end.
pub open spec fn extends_globals(pre: Context, post: Context) -> bool {
    &&& post.module@ == pre.module@
    &&& post.dialect == pre.dialect
    &&& var_texts(post) == var_texts(pre)
    &&& post.current_source@ == pre.current_source@
    &&& global_texts(pre).is_prefix_of(global_texts(post))
}

/// A render call that may register top-level declarations and may emit
/// preparatory statements: namespace, dialect and declared names stay as
/// they were, and both the declaration list and the statement buffer only
/// grow at the end.
pub open spec fn extends_buffers(pre: Context, post: Context) -> bool {
    &&& post.module@ == pre.module@
    &&& post.dialect == pre.dialect
    &&& var_texts(post) == var_texts(pre)
    &&& pre.current_source@.is_prefix_of(post.current_source@)
    &&& global_texts(pre).is_prefix_of(global_texts(post))
}

/// Prefixes compose.
pub proof fn lemma_prefix_trans<A>(a: Seq<A>, b: Seq<A>, c: Seq<A>)
    requires
        a.is_prefix_of(b),
        b.is_prefix_of(c),
    ensures
        a.is_prefix_of(c),
{
    assert(a =~= c.subrange(0, a.len() as int));
}

/// Every scope extends itself.
pub proof fn lemma_extends_refl(c: Context)
    ensures
        extends_globals(c, c),
        extends_buffers(c, c),
{
    assert(global_texts(c) =~= global_texts(c).subrange(0, global_texts(c).len() as int));
    assert(c.current_source@ =~= c.current_source@.subrange(0, c.current_source@.len() as int));
}

/// A call that only registers declarations also only grows the buffers.
pub proof fn lemma_globals_implies_buffers(a: Context, b: Context)
    requires
        extends_globals(a, b),
    ensures
        extends_buffers(a, b),
{
    assert(a.current_source@ =~= b.current_source@.subrange(0, a.current_source@.len() as int));
}

/// `extends_globals` composes, and refines `extends_buffers`.
pub proof fn lemma_extends_trans(a: Context, b: Context, c: Context)
    requires
        extends_buffers(a, b),
        extends_buffers(b, c),
    ensures
        extends_buffers(a, c),
        extends_globals(a, b) && extends_globals(b, c) ==> extends_globals(a, c),
{
    lemma_prefix_trans(global_texts(a), global_texts(b), global_texts(c));
    lemma_prefix_trans(a.current_source@, b.current_source@, c.current_source@);
}

impl Context {
    /// A fresh file-level scope for `module_name`, in the standard dialect,
    /// with nothing declared and nothing emitted.
    pub fn standard(module_name: String) -> (r: Context)
        ensures
            r.module@ == module_name@,
            r.dialect == CDialect::Standard,
            global_texts(r) == Seq::<Seq<char>>::empty(),
            var_texts(r) == Seq::<Seq<char>>::empty(),
            r.current_source@ == Seq::<char>::empty(),
    {
        let r = Context {
            globals: Vec::new(),
            module: module_name,
            dialect: CDialect::Standard,
            variables: Vec::new(),
            current_source: String::new(),
        };
        proof {
            assert(global_texts(r) =~= Seq::<Seq<char>>::empty());
            assert(var_texts(r) =~= Seq::<Seq<char>>::empty());
        }
        r
    }

    /// Appends `code` verbatim to the top-level declarations.  The
    /// renderers register their generated declarations through this.
    pub(crate) fn push_global(&mut self, code: String)
        ensures
            final(self).globals@ == old(self).globals@.push(code),
            global_texts(*final(self)) == global_texts(*old(self)).push(code@),
            final(self).module == old(self).module,
            final(self).dialect == old(self).dialect,
            final(self).variables == old(self).variables,
            final(self).current_source == old(self).current_source,
            extends_globals(*old(self), *final(self)),
    {
        let ghost pre = *self;
        self.globals.push(code);
        proof {
            assert(global_texts(*self) =~= global_texts(pre).push(code@));
            assert(global_texts(pre) =~= global_texts(*self).subrange(
                0,
                global_texts(pre).len() as int,
            ));
        }
    }

    /// Appends `code` to the top-level declarations, with every `{name}`
    /// interpolation mangled against the active namespace first.
    pub fn global_inline_c(&mut self, code: String)
        ensures
            final(self).module == old(self).module,
            final(self).dialect == old(self).dialect,
            final(self).variables == old(self).variables,
            final(self).current_source == old(self).current_source,
            extends_globals(*old(self), *final(self)),
            final(self).globals@.len() == old(self).globals@.len() + 1,
            exists|x: Seq<char>, n: nat|
                #[trigger] crate::escape::rewrites_to(old(self).module@, code@, x, n)
                    && global_texts(*final(self)) == global_texts(*old(self)).push(x),
    {
        let replaced = escape::format_to_escape_replace(self.module.as_str(), code);
        self.push_global(replaced);
    }

    /// Appends `code` verbatim to the active block, wrapped as a
    /// `do { ... } while(0);` statement.
    pub fn local_inline_c(&mut self, code: &str)
        ensures
            final(self).current_source@ == old(self).current_source@ + local_inline_text(code@),
            final(self).module == old(self).module,
            final(self).dialect == old(self).dialect,
            final(self).variables == old(self).variables,
            final(self).globals == old(self).globals,
            extends_buffers(*old(self), *final(self)),
    {
        let ghost pre = *self;
        self.current_source.append("do {");
        self.current_source.append(code);
        self.current_source.append("} while(0);\n");
        proof {
            reveal_strlit("do {");
            reveal_strlit("} while(0);\n");
            assert(self.current_source@ =~= pre.current_source@ + local_inline_text(code@));
            assert(pre.current_source@ =~= self.current_source@.subrange(
                0,
                pre.current_source@.len() as int,
            ));
        }
    }
}

/// Whether some string of `v` has the text `n`.
fn contains_name(v: &Vec<String>, n: &String) -> (b: bool)
    ensures
        b == exists|i: int| 0 <= i < v@.len() && #[trigger] v@[i]@ == n@,
{
    let mut i: usize = 0;
    while i < v.len()
        invariant
            0 <= i <= v@.len(),
            forall|k: int| 0 <= k < i ==> #[trigger] v@[k]@ != n@,
        decreases v@.len() - i,
    {
        if v[i].eq(n) {
            return true;
        }
        i = i + 1;
    }
    false
}

/// The statement text of a declaration-with-initializer.
pub open spec fn decl_stmt_text(ty: Seq<char>, name: Seq<char>, value: Seq<char>) -> Seq<char> {
    ty + " "@ + name + " = "@ + value + ";\n"@
}

/// The statement text of a bare assignment.
pub open spec fn assign_stmt_text(name: Seq<char>, value: Seq<char>) -> Seq<char> {
    name + " = "@ + value + ";\n"@
}

/// The statement text of an uninitialized temporary declaration.
pub open spec fn tmp_decl_text(ty: Seq<char>, name: Seq<char>) -> Seq<char> {
    ty + " "@ + name + ";\n"@
}

impl Context {
    /// Declare-or-assign: the first occurrence of `name` in the active
    /// scope emits a declaration-with-initializer and marks the name seen;
    /// every later occurrence in the same scope emits a bare assignment,
    /// never a second declaration.
    #[verifier::loop_isolation(false)]
    #[verifier::rlimit(100)]
    #[verifier::spinoff_prover]
    pub fn set(&mut self, ty: CType, name: Variable, value: CValue) -> (r: Result<(), CError>)
        ensures
            final(self).module@ == old(self).module@,
            final(self).dialect == old(self).dialect,
            global_texts(*old(self)).is_prefix_of(global_texts(*final(self))),
            old(self).current_source@.is_prefix_of(final(self).current_source@),
            r is Err ==> var_texts(*final(self)) == var_texts(*old(self)),
            !is_declared(*old(self), name@) ==> (r is Ok <==> type_ok(ty) && value_ok(
                value,
                old(self).dialect,
            )),
            is_declared(*old(self), name@) ==> (r is Ok <==> value_ok(value, old(self).dialect)),
            r is Ok && !is_declared(*old(self), name@) ==> var_texts(*final(self)) == var_texts(
                *old(self),
            ).push(name@),
            r is Ok && is_declared(*old(self), name@) ==> var_texts(*final(self)) == var_texts(
                *old(self),
            ),
            r is Ok && !is_declared(*old(self), name@) && type_pure(ty) && value_pure(
                value,
                old(self).dialect,
            ) ==> final(self).current_source@ == old(self).current_source@ + decl_stmt_text(
                type_text(ty),
                mangle_qualified(old(self).module@, name@),
                val_text(value, old(self).dialect, old(self).module@),
            ) && global_texts(*final(self)) == global_texts(*old(self)),
            r is Ok && is_declared(*old(self), name@) && value_pure(value, old(self).dialect)
                ==> final(self).current_source@ == old(self).current_source@ + assign_stmt_text(
                mangle_qualified(old(self).module@, name@),
                val_text(value, old(self).dialect, old(self).module@),
            ) && global_texts(*final(self)) == global_texts(*old(self)),
    {
        let ghost pre = *self;
        proof {
            lemma_extends_refl(pre);
        }
        let d = self.dialect;
        let mangled = escape::string_to_escape_to_c_ansi_id(
            self.module.as_str(),
            name.as_str(),
        );
        let already = contains_name(&self.variables, &name);
        proof {
            assert(forall|i: int|
                0 <= i < pre.variables@.len() ==> var_texts(pre)[i]
                    == #[trigger] pre.variables@[i]@);
            assert(already == is_declared(pre, name@));
        }
        if !already {
            let ty_text = match ty.to_c(d, self) {
                Ok(t) => t,
                Err(e) => {
                    return Err(e);
                },
            };
            let ghost mid = *self;
            let v_text = match value.to_c(d, self) {
                Ok(t) => t,
                Err(e) => {
                    proof {
                        lemma_globals_implies_buffers(pre, mid);
                        lemma_extends_trans(pre, mid, *self);
                    }
                    return Err(e);
                },
            };
            let ghost mid2 = *self;
            self.variables.push(name);
            let stmt = crate::c_cg::cat5(
                ty_text.as_str(),
                " ",
                mangled.as_str(),
                " = ",
                v_text.as_str(),
            );
            self.current_source.append(stmt.as_str());
            self.current_source.append(";\n");
            proof {
                lemma_globals_implies_buffers(pre, mid);
                lemma_extends_trans(pre, mid, mid2);
                assert(var_texts(*self) =~= var_texts(mid2).push(name@));
                assert(mid2.current_source@ =~= self.current_source@.subrange(
                    0,
                    mid2.current_source@.len() as int,
                ));
                lemma_prefix_trans(
                    pre.current_source@,
                    mid2.current_source@,
                    self.current_source@,
                );
                if type_pure(ty) && value_pure(value, pre.dialect) {
                    assert(self.current_source@ =~= pre.current_source@ + decl_stmt_text(
                        type_text(ty),
                        mangle_qualified(pre.module@, name@),
                        val_text(value, pre.dialect, pre.module@),
                    ));
                }
            }
            Ok(())
        } else {
            let v_text = match value.to_c(d, self) {
                Ok(t) => t,
                Err(e) => {
                    return Err(e);
                },
            };
            let ghost mid2 = *self;
            self.current_source.append(mangled.as_str());
            self.current_source.append(" = ");
            self.current_source.append(v_text.as_str());
            self.current_source.append(";\n");
            proof {
                assert(mid2.current_source@ =~= self.current_source@.subrange(
                    0,
                    mid2.current_source@.len() as int,
                ));
                lemma_prefix_trans(
                    pre.current_source@,
                    mid2.current_source@,
                    self.current_source@,
                );
                if value_pure(value, pre.dialect) {
                    assert(self.current_source@ =~= pre.current_source@ + assign_stmt_text(
                        mangle_qualified(pre.module@, name@),
                        val_text(value, pre.dialect, pre.module@),
                    ));
                }
            }
            Ok(())
        }
    }

    /// Declares an uninitialized result temporary of `ty` in the active
    /// block and returns its fresh name.  The name is not recorded as a
    /// declared variable: it belongs to the construct that asked for it.
    pub fn decl_tmp(&mut self, ty: &CType) -> (r: Result<String, CError>)
        ensures
            final(self).module@ == old(self).module@,
            final(self).dialect == old(self).dialect,
            var_texts(*final(self)) == var_texts(*old(self)),
            global_texts(*old(self)).is_prefix_of(global_texts(*final(self))),
            old(self).current_source@.is_prefix_of(final(self).current_source@),
            r is Ok <==> type_ok(*ty),
            r is Err ==> r == Err::<String, CError>(CError::UnimplementedConstruct),
            r matches Ok(nm) ==> is_temp_name(nm@, old(self).module@) && (type_pure(*ty)
                ==> final(self).current_source@ == old(self).current_source@ + tmp_decl_text(
                type_text(*ty),
                nm@,
            ) && global_texts(*final(self)) == global_texts(*old(self))),
    {
        let ghost pre = *self;
        proof {
            lemma_extends_refl(pre);
        }
        let d = self.dialect;
        let ty_text = match ty.to_c(d, self) {
            Ok(t) => t,
            Err(e) => {
                return Err(e);
            },
        };
        let ghost mid = *self;
        let name = escape::get_temp_variable_name(self.module.as_str());
        self.current_source.append(ty_text.as_str());
        self.current_source.append(" ");
        self.current_source.append(name.as_str());
        self.current_source.append(";\n");
        proof {
            assert(mid.current_source@ =~= self.current_source@.subrange(
                0,
                mid.current_source@.len() as int,
            ));
            lemma_prefix_trans(pre.current_source@, mid.current_source@, self.current_source@);
            if type_pure(*ty) {
                assert(self.current_source@ =~= pre.current_source@ + tmp_decl_text(
                    type_text(*ty),
                    name@,
                ));
            }
        }
        Ok(name)
    }
}

/// Clones a list of names; the texts are preserved.
fn snapshot_names(v: &Vec<String>) -> (r: Vec<String>)
    ensures
        r@.map_values(|s: String| s@) == v@.map_values(|s: String| s@),
{
    let mut out: Vec<String> = Vec::new();
    let mut i: usize = 0;
    while i < v.len()
        invariant
            0 <= i <= v@.len(),
            out@.len() == i,
            forall|k: int| 0 <= k < i ==> #[trigger] out@[k]@ == v@[k]@,
        decreases v@.len() - i,
    {
        out.push(v[i].clone());
        i = i + 1;
    }
    proof {
        assert(out@.map_values(|s: String| s@) =~= v@.map_values(|s: String| s@));
    }
    out
}

/// Whether `cin` is a child scope derived from `parent`: same namespace and
/// dialect, a snapshot of the declared names, and an empty text buffer of
/// its own.
pub open spec fn derived_scope(cin: Context, parent: Context) -> bool {
    &&& cin.module@ == parent.module@
    &&& cin.dialect == parent.dialect
    &&& var_texts(cin) == var_texts(parent)
    &&& cin.current_source@ == Seq::<char>::empty()
}

impl Context {
    /// Derives a child scope, moving the top-level declaration list into
    /// it; the parent's list is left empty until the child is folded back.
    fn derive_child(&mut self) -> (r: Context)
        ensures
            derived_scope(r, *old(self)),
            r.globals == old(self).globals,
            final(self).module == old(self).module,
            final(self).dialect == old(self).dialect,
            final(self).variables == old(self).variables,
            final(self).current_source == old(self).current_source,
    {
        let mut g: Vec<String> = Vec::new();
        core::mem::swap(&mut g, &mut self.globals);
        Context {
            globals: g,
            module: self.module.clone(),
            dialect: self.dialect,
            variables: snapshot_names(&self.variables),
            current_source: String::new(),
        }
    }

    /// Allocates an uninitialized result temporary in this scope, runs
    /// `block` against a derived child scope and the temporary's name,
    /// folds the child's text back as one opaque compound statement, and
    /// returns the temporary's name.  Names the child declares are
    /// forgotten: only the result binding survives.  The builder is
    /// expected to assign the result binding; nothing enforces it.
    pub fn block<F: Fn(Context, Variable) -> Context>(&mut self, ty: &CType, block: F) -> (r:
        Result<String, CError>)
        requires
            forall|c: Context, v: Variable| #[trigger] call_requires(block, (c, v)),
        ensures
            final(self).module@ == old(self).module@,
            final(self).dialect == old(self).dialect,
            var_texts(*final(self)) == var_texts(*old(self)),
            old(self).current_source@.is_prefix_of(final(self).current_source@),
            r is Ok <==> type_ok(*ty),
            r matches Ok(nm) ==> is_temp_name(nm@, old(self).module@) && exists|
                cin: Context,
                ph: Variable,
                cout: Context,
            |
                {
                    &&& #[trigger] call_ensures(block, (cin, ph), cout)
                    &&& ph@ == nm@
                    &&& derived_scope(cin, *old(self))
                    &&& global_texts(*old(self)).is_prefix_of(global_texts(cin))
                    &&& (type_pure(*ty) ==> global_texts(cin) == global_texts(*old(self)))
                    &&& final(self).globals == cout.globals
                    &&& (type_pure(*ty) ==> final(self).current_source@ == old(
                        self,
                    ).current_source@ + tmp_decl_text(type_text(*ty), nm@) + "{\n"@
                        + cout.current_source@ + "\n}"@)
                },
    {
        let ghost pre = *self;
        let ret = match self.decl_tmp(ty) {
            Ok(n) => n,
            Err(e) => {
                return Err(e);
            },
        };
        let ghost mid = *self;
        let ph = ret.clone();
        let child = self.derive_child();
        let ghost cin = child;
        let ghost ph_snap = ph;
        let cout = block(child, ph);
        let Context { globals: g2, current_source: cs2, .. } = cout;
        let ghost cout_snap = cout;
        self.globals = g2;
        self.current_source.append("{\n");
        self.current_source.append(cs2.as_str());
        self.current_source.append("\n}");
        proof {
            assert(mid.current_source@ =~= self.current_source@.subrange(
                0,
                mid.current_source@.len() as int,
            ));
            lemma_prefix_trans(pre.current_source@, mid.current_source@, self.current_source@);
            assert(call_ensures(block, (cin, ph_snap), cout_snap));
            if type_pure(*ty) {
                assert(self.current_source@ =~= pre.current_source@ + tmp_decl_text(
                    type_text(*ty),
                    ret@,
                ) + "{\n"@ + cout_snap.current_source@ + "\n}"@);
            }
        }
        Ok(ret)
    }

    /// Renders a complete function definition and appends it to the
    /// top-level declarations, regardless of the lexical call site:
    /// function definitions are always hoisted to file scope.
    #[verifier::loop_isolation(false)]
    #[verifier::rlimit(100)]
    #[verifier::spinoff_prover]
    pub fn def<F: Fn(Context) -> Context>(
        &mut self,
        name: Variable,
        ret: CType,
        args: Vec<(CType, Variable)>,
        body: F,
    ) -> (r: Result<(), CError>)
        requires
            forall|c: Context| #[trigger] call_requires(body, (c,)),
        ensures
            final(self).module@ == old(self).module@,
            final(self).dialect == old(self).dialect,
            var_texts(*final(self)) == var_texts(*old(self)),
            final(self).current_source@ == old(self).current_source@,
            r is Ok <==> type_ok(ret) && (forall|i: int|
                0 <= i < args@.len() ==> type_ok(#[trigger] args@[i].0)),
            r is Ok ==> exists|cin: Context, cout: Context|
                {
                    &&& #[trigger] call_ensures(body, (cin,), cout)
                    &&& derived_scope(cin, *old(self))
                    &&& global_texts(*old(self)).is_prefix_of(global_texts(cin))
                    &&& (type_pure(ret) && (forall|i: int|
                        0 <= i < args@.len() ==> type_pure(#[trigger] args@[i].0))
                        ==> global_texts(cin) == global_texts(*old(self)))
                    &&& global_texts(*final(self)).len() == global_texts(cout).len() + 1
                    &&& global_texts(cout).is_prefix_of(global_texts(*final(self)))
                    &&& (type_pure(ret) && (forall|i: int|
                        0 <= i < args@.len() ==> type_pure(#[trigger] args@[i].0)) ==> global_texts(
                        *final(self),
                    ) == global_texts(cout).push(
                        def_text(
                            type_text(ret),
                            mangle_qualified(old(self).module@, name@),
                            args_sig_text(args@, args@.len() as int, old(self).module@),
                            cout.current_source@,
                        ),
                    ))
                },
    {
        let ghost pre = *self;
        proof {
            lemma_extends_refl(pre);
        }
        let d = self.dialect;
        let mangled = escape::string_to_escape_to_c_ansi_id(self.module.as_str(), name.as_str());
        let ret_text = match ret.to_c(d, self) {
            Ok(t) => t,
            Err(e) => {
                return Err(e);
            },
        };
        let ghost mid0 = *self;
        let mut joined = String::new();
        let mut i: usize = 0;
        while i < args.len()
            invariant
                0 <= i <= args@.len(),
                extends_globals(mid0, *self),
                forall|k: int| 0 <= k < i ==> type_ok(#[trigger] args@[k].0),
                (forall|k: int| 0 <= k < args@.len() ==> type_pure(#[trigger] args@[k].0)) ==> (
                *self == mid0 && joined@ == args_sig_text(args@, i as int, pre.module@)),
            decreases args@.len() - i,
        {
            let ghost mid_i = *self;
            let a_text = match args[i].0.to_c(d, self) {
                Ok(t) => t,
                Err(e) => {
                    proof {
                        assert(!type_ok(args@[i as int].0));
                        lemma_extends_trans(mid0, mid_i, *self);
                    }
                    return Err(e);
                },
            };
            let a_name = escape::string_to_escape_to_c_ansi_id(
                self.module.as_str(),
                args[i].1.as_str(),
            );
            if i > 0 {
                joined.append(", ");
            }
            joined.append(a_text.as_str());
            joined.append(" ");
            joined.append(a_name.as_str());
            proof {
                lemma_extends_trans(mid0, mid_i, *self);
                if forall|k: int| 0 <= k < args@.len() ==> type_pure(#[trigger] args@[k].0) {
                    assert(joined@ =~= args_sig_text(args@, i + 1, pre.module@));
                }
            }
            i = i + 1;
        }
        let child = self.derive_child();
        let ghost cin = child;
        let cout = body(child);
        let Context { globals: g2, current_source: cs2, .. } = cout;
        let ghost cout_snap = cout;
        self.globals = g2;
        let mut code = String::new();
        code.append(ret_text.as_str());
        code.append(" ");
        code.append(mangled.as_str());
        code.append("(");
        code.append(joined.as_str());
        code.append(") {");
        code.append(cs2.as_str());
        code.append("}");
        self.push_global(code);
        proof {
            assert(call_ensures(body, (cin,), cout_snap));
            assert(global_texts(cout_snap) =~= global_texts(*self).subrange(
                0,
                global_texts(cout_snap).len() as int,
            ));
            if type_pure(ret) && (forall|k: int|
                0 <= k < args@.len() ==> type_pure(#[trigger] args@[k].0)) {
                assert(global_texts(*self).last() =~= def_text(
                    type_text(ret),
                    mangle_qualified(pre.module@, name@),
                    args_sig_text(args@, args@.len() as int, pre.module@),
                    cout_snap.current_source@,
                ));
                assert(global_texts(*self) =~= global_texts(cout_snap).push(
                    def_text(
                        type_text(ret),
                        mangle_qualified(pre.module@, name@),
                        args_sig_text(args@, args@.len() as int, pre.module@),
                        cout_snap.current_source@,
                    ),
                ));
            }
        }
        Ok(())
    }

    /// A multi-way conditional with a shared result binding: requires at
    /// least one condition and one branch builder of the same count, else
    /// it fails with a malformed-conditional signal before any text is
    /// appended.  Emits `if(c0) {..} else if(ci) {..} else {..}`; each
    /// branch runs in its own derived child scope and is expected to
    /// assign the shared result temporary.
    #[verifier::loop_isolation(false)]
    #[verifier::rlimit(100)]
    #[verifier::spinoff_prover]
    pub fn cond<F: Fn(Context, Variable) -> Context, G: Fn(Context, Variable) -> Context>(
        &mut self,
        ty: &CType,
        conds: Vec<CValue>,
        builder: Vec<F>,
        otherwise: G,
    ) -> (r: Result<(), CError>)
        requires
            forall|i: int, c: Context, v: Variable|
                0 <= i < builder@.len() ==> #[trigger] call_requires(builder@[i], (c, v)),
            forall|c: Context, v: Variable| #[trigger] call_requires(otherwise, (c, v)),
        ensures
            final(self).module@ == old(self).module@,
            final(self).dialect == old(self).dialect,
            var_texts(*final(self)) == var_texts(*old(self)),
            old(self).current_source@.is_prefix_of(final(self).current_source@),
            (conds@.len() == 0 || builder@.len() != conds@.len()) <==> r == Err::<(), CError>(
                CError::MalformedConditional,
            ),
            (conds@.len() == 0 || builder@.len() != conds@.len()) ==> *final(self) == *old(self),
            conds@.len() > 0 && builder@.len() == conds@.len() ==> (r is Ok <==> type_ok(*ty) && (
            forall|i: int| 0 <= i < conds@.len() ==> value_ok(#[trigger] conds@[i], old(self).dialect))),
            r is Ok ==> exists|
                phi: Variable,
                outs: Seq<Context>,
                oout: Context,
                g0: Seq<Seq<char>>,
            |
                #![trigger is_temp_name(phi@, old(self).module@), bodies_of(outs), oout.globals, g0.len()]
                {
                    &&& is_temp_name(phi@, old(self).module@)
                    &&& outs.len() == conds@.len()
                    &&& global_texts(*old(self)).is_prefix_of(g0)
                    &&& (type_pure(*ty) ==> g0 == global_texts(*old(self)))
                    &&& branches_linked(
                        builder@,
                        outs,
                        *old(self),
                        phi@,
                        g0,
                        type_pure(*ty) && (forall|i: int|
                            0 <= i < conds@.len() ==> value_pure(
                                #[trigger] conds@[i],
                                old(self).dialect,
                            )),
                        conds@.len() as int,
                    )
                    &&& (exists|oin: Context, oph: Variable|
                        derived_scope(oin, *old(self)) && global_texts(oin) == global_texts(
                            outs[conds@.len() - 1],
                        ) && oph@ == phi@ && call_ensures(otherwise, (oin, oph), oout))
                    &&& final(self).globals == oout.globals
                    &&& (type_pure(*ty) && (forall|i: int|
                        0 <= i < conds@.len() ==> value_pure(#[trigger] conds@[i], old(self).dialect))
                        ==> final(self).current_source@ == old(self).current_source@
                        + tmp_decl_text(type_text(*ty), phi@) + cond_chain(
                        cond_texts(conds@, old(self).dialect, old(self).module@),
                        bodies_of(outs),
                        conds@.len() as int,
                    ) + "} else {\n"@ + oout.current_source@ + "\n}\n"@)
                },
    {
        if conds.len() == 0 || builder.len() != conds.len() {
            return Err(CError::MalformedConditional);
        }
        let ghost pre = *self;
        let d = self.dialect;
        let phi = match self.decl_tmp(ty) {
            Ok(n) => n,
            Err(e) => {
                return Err(e);
            },
        };
        let ghost after_decl = *self;
        let ghost g0 = global_texts(after_decl);
        let ghost exact = type_pure(*ty) && (forall|k: int|
            0 <= k < conds@.len() ==> value_pure(#[trigger] conds@[k], pre.dialect));
        let mut code = String::new();
        let mut i: usize = 0;
        let ghost mut outs: Seq<Context> = Seq::empty();
        while i < conds.len()
            invariant
                0 <= i <= conds@.len(),
                builder@.len() == conds@.len(),
                self.module@ == pre.module@,
                self.dialect == pre.dialect,
                var_texts(*self) == var_texts(pre),
                after_decl.current_source@.is_prefix_of(self.current_source@),
                forall|k: int| 0 <= k < i ==> value_ok(#[trigger] conds@[k], pre.dialect),
                outs.len() == i,
                global_texts(*self) == (if i == 0 {
                    g0
                } else {
                    global_texts(outs[i - 1])
                }),
                branches_linked(builder@, outs, pre, phi@, g0, exact, i as int),
                (type_pure(*ty) && (forall|k: int|
                    0 <= k < conds@.len() ==> value_pure(#[trigger] conds@[k], pre.dialect)))
                    ==> self.current_source@ == after_decl.current_source@ && code@ == cond_chain(
                    cond_texts(conds@, pre.dialect, pre.module@),
                    bodies_of(outs),
                    i as int,
                ),
            decreases conds@.len() - i,
        {
            let ghost mid = *self;
            let ctext = match conds[i].to_c(d, self) {
                Ok(t) => t,
                Err(e) => {
                    proof {
                        assert(!value_ok(conds@[i as int], pre.dialect));
                        lemma_prefix_trans(
                            after_decl.current_source@,
                            mid.current_source@,
                            self.current_source@,
                        );
                    }
                    return Err(e);
                },
            };
            let ph = phi.clone();
            let ghost mid2 = *self;
            let child = self.derive_child();
            let ghost cin = child;
            let ghost ph_snap = ph;
            let b = &builder[i];
            let cout = b(child, ph);
            let Context { globals: g2, current_source: cs2, .. } = cout;
            let ghost cout_snap = cout;
            self.globals = g2;
            if i == 0 {
                code.append("if(");
            } else {
                code.append("} else if(");
            }
            code.append(ctext.as_str());
            code.append(") {\n");
            code.append(cs2.as_str());
            code.append("\n");
            proof {
                lemma_prefix_trans(
                    after_decl.current_source@,
                    mid.current_source@,
                    self.current_source@,
                );
                let ghost prev = if i == 0 {
                    g0
                } else {
                    global_texts(outs[i - 1])
                };
                assert(call_ensures(builder@[i as int], (cin, ph_snap), cout_snap));
                assert(derived_scope(cin, pre));
                assert(global_texts(cin) == global_texts(mid2));
                assert(prev == global_texts(mid));
                assert(prev.is_prefix_of(global_texts(cin)));
                if exact {
                    assert(value_pure(conds@[i as int], pre.dialect));
                    assert(global_texts(mid2) == global_texts(mid));
                    assert(global_texts(cin) == prev);
                }
                let ghost outs_before = outs;
                outs = outs.push(cout_snap);
                assert(outs[i as int] == cout_snap);
                assert(forall|k: int|
                    0 <= k < outs_before.len() ==> #[trigger] outs[k] == outs_before[k]);
                lemma_branches_linked_prefix(
                    builder@,
                    outs_before,
                    outs,
                    pre,
                    phi@,
                    g0,
                    exact,
                    i as int,
                );
                assert((if i + 1 == 1 {
                    g0
                } else {
                    global_texts(outs[i - 1])
                }) == prev);
                assert(exists|cin2: Context, ph2: Variable|
                    {
                        &&& derived_scope(cin2, pre)
                        &&& prev.is_prefix_of(global_texts(cin2))
                        &&& (exact ==> global_texts(cin2) == prev)
                        &&& ph2@ == phi@
                        &&& #[trigger] call_ensures(builder@[i as int], (cin2, ph2), outs[i as int])
                    }) by {
                    assert(derived_scope(cin, pre) && prev.is_prefix_of(global_texts(cin)) && (
                    exact ==> global_texts(cin) == prev) && ph_snap@ == phi@ && call_ensures(
                        builder@[i as int],
                        (cin, ph_snap),
                        outs[i as int],
                    ));
                };
                assert(branches_linked(builder@, outs, pre, phi@, g0, exact, i + 1));
                assert(global_texts(*self) == global_texts(cout_snap));
                if type_pure(*ty) && (forall|k: int|
                    0 <= k < conds@.len() ==> value_pure(#[trigger] conds@[k], pre.dialect)) {
                    assert(cond_texts(conds@, pre.dialect, pre.module@)[i as int] == ctext@);
                    assert(bodies_of(outs)[i as int] == cout_snap.current_source@);
                    lemma_cond_chain_prefix(
                        cond_texts(conds@, pre.dialect, pre.module@),
                        bodies_of(outs_before),
                        bodies_of(outs),
                        i as int,
                    );
                    assert(code@ =~= cond_chain(
                        cond_texts(conds@, pre.dialect, pre.module@),
                        bodies_of(outs),
                        i + 1,
                    ));
                }
            }
            i = i + 1;
        }
        let ph = phi.clone();
        let child = self.derive_child();
        let ghost cin = child;
        let ghost ph_snap = ph;
        let oout = otherwise(child, ph);
        let Context { globals: g2, current_source: cs2, .. } = oout;
        let ghost oout_snap = oout;
        self.globals = g2;
        code.append("} else {\n");
        code.append(cs2.as_str());
        code.append("\n}\n");
        let ghost before_fold = *self;
        self.current_source.append(code.as_str());
        proof {
            assert(call_ensures(otherwise, (cin, ph_snap), oout_snap));
            assert(derived_scope(cin, pre));
            assert(global_texts(cin) == global_texts(outs[conds@.len() - 1]));
            assert(ph_snap@ == phi@);
            assert(is_temp_name(phi@, pre.module@));
            assert(bodies_of(outs).len() == outs.len());
            assert(global_texts(pre).is_prefix_of(g0));
            if type_pure(*ty) {
                assert(g0 == global_texts(pre));
            }
            assert(branches_linked(builder@, outs, pre, phi@, g0, exact, conds@.len() as int));
            assert(before_fold.current_source@ =~= self.current_source@.subrange(
                0,
                before_fold.current_source@.len() as int,
            ));
            lemma_prefix_trans(
                pre.current_source@,
                before_fold.current_source@,
                self.current_source@,
            );
            if type_pure(*ty) && (forall|k: int|
                0 <= k < conds@.len() ==> value_pure(#[trigger] conds@[k], pre.dialect)) {
                assert(self.current_source@ =~= pre.current_source@ + tmp_decl_text(
                    type_text(*ty),
                    phi@,
                ) + cond_chain(
                    cond_texts(conds@, pre.dialect, pre.module@),
                    bodies_of(outs),
                    conds@.len() as int,
                ) + "} else {\n"@ + oout_snap.current_source@ + "\n}\n"@);
            }
        }
        Ok(())
    }
}

/// The rendered text of a function definition.
pub open spec fn def_text(
    ret: Seq<char>,
    name: Seq<char>,
    args: Seq<char>,
    body: Seq<char>,
) -> Seq<char> {
    ret + " "@ + name + "("@ + args + ") {"@ + body + "}"@
}

/// The rendered parameter list of the first `i` parameters: each a type and
/// a mangled name, joined by `, `.
pub open spec fn args_sig_text(args: Seq<(CType, String)>, i: int, module: Seq<char>) -> Seq<char>
    decreases i,
{
    if i <= 0 || i > args.len() {
        Seq::empty()
    } else {
        let one = type_text(args[i - 1].0) + " "@ + mangle_qualified(module, args[i - 1].1@);
        if i == 1 {
            one
        } else {
            args_sig_text(args, i - 1, module) + ", "@ + one
        }
    }
}

/// The first `i` branch scopes of a multi-way conditional, each produced
/// by its own builder on a derived child scope handed the shared result
/// name, with the declaration list threaded from `g0` through the branches
/// in order.  When `exact` holds, condition rendering registers nothing, so
/// each child starts from exactly the previous branch's list.
pub open spec fn branches_linked<F: Fn(Context, Variable) -> Context>(
    builders: Seq<F>,
    outs: Seq<Context>,
    parent: Context,
    phi: Seq<char>,
    g0: Seq<Seq<char>>,
    exact: bool,
    i: int,
) -> bool
    decreases i,
{
    if i <= 0 {
        true
    } else {
        let prev = if i == 1 {
            g0
        } else {
            global_texts(outs[i - 2])
        };
        &&& branches_linked(builders, outs, parent, phi, g0, exact, i - 1)
        &&& exists|cin: Context, ph: Variable|
            {
                &&& derived_scope(cin, parent)
                &&& prev.is_prefix_of(global_texts(cin))
                &&& (exact ==> global_texts(cin) == prev)
                &&& ph@ == phi
                &&& #[trigger] call_ensures(builders[i - 1], (cin, ph), outs[i - 1])
            }
    }
}

/// The chain of the first `i` branches reads only the first `i` scopes.
proof fn lemma_branches_linked_prefix<F: Fn(Context, Variable) -> Context>(
    builders: Seq<F>,
    o1: Seq<Context>,
    o2: Seq<Context>,
    parent: Context,
    phi: Seq<char>,
    g0: Seq<Seq<char>>,
    exact: bool,
    i: int,
)
    requires
        0 <= i <= o1.len(),
        i <= o2.len(),
        forall|k: int| 0 <= k < i ==> o1[k] == #[trigger] o2[k],
    ensures
        branches_linked(builders, o1, parent, phi, g0, exact, i) == branches_linked(
            builders,
            o2,
            parent,
            phi,
            g0,
            exact,
            i,
        ),
    decreases i,
{
    if i > 0 {
        lemma_branches_linked_prefix(builders, o1, o2, parent, phi, g0, exact, i - 1);
        assert(o1[i - 1] == o2[i - 1]);
        if i >= 2 {
            assert(o1[i - 2] == o2[i - 2]);
        }
    }
}

/// The statement texts of a sequence of child scopes.
pub open spec fn bodies_of(outs: Seq<Context>) -> Seq<Seq<char>> {
    Seq::new(outs.len(), |i: int| outs[i].current_source@)
}

/// The `if` / `else if` chain of the first `i` branches, each condition
/// text wrapped as `if(c) {` and each body on its own lines.
pub open spec fn cond_chain(conds: Seq<Seq<char>>, bodies: Seq<Seq<char>>, i: int) -> Seq<char>
    decreases i,
{
    if i <= 0 || i > conds.len() || i > bodies.len() {
        Seq::empty()
    } else {
        let head = if i == 1 {
            "if("@ + conds[0] + ") {\n"@ + bodies[0] + "\n"@
        } else {
            "} else if("@ + conds[i - 1] + ") {\n"@ + bodies[i - 1] + "\n"@
        };
        cond_chain(conds, bodies, i - 1) + head
    }
}

/// The texts of a sequence of pure condition values.
pub open spec fn cond_texts(conds: Seq<CValue>, dialect: CDialect, module: Seq<char>) -> Seq<
    Seq<char>,
> {
    Seq::new(conds.len(), |i: int| val_text(conds[i], dialect, module))
}

/// The `if` / `else if` chain of the first `i` branches reads only the
/// first `i` bodies.
proof fn lemma_cond_chain_prefix(
    conds: Seq<Seq<char>>,
    b1: Seq<Seq<char>>,
    b2: Seq<Seq<char>>,
    i: int,
)
    requires
        0 <= i <= b1.len(),
        i <= b2.len(),
        forall|k: int| 0 <= k < i ==> b1[k] == #[trigger] b2[k],
    ensures
        cond_chain(conds, b1, i) == cond_chain(conds, b2, i),
    decreases i,
{
    if i > 0 && i <= conds.len() {
        lemma_cond_chain_prefix(conds, b1, b2, i - 1);
    }
}

/// The rendered init clause of a `for` statement: a declaration with
/// initializer, or a bare `;` when omitted.
pub open spec fn for_init_text(
    init: Option<(CType, String, CValue)>,
    dialect: CDialect,
    module: Seq<char>,
) -> Seq<char> {
    match init {
        Some(p) => type_text(p.0) + " "@ + mangle_qualified(module, p.1@) + " = "@ + val_text(
            p.2,
            dialect,
            module,
        ) + ";"@,
        None => ";"@,
    }
}

/// The text of an optional value; an omitted one renders as empty text,
/// which as a loop condition is C's always-true guard.
pub open spec fn opt_val_text(o: Option<CValue>, dialect: CDialect, module: Seq<char>) -> Seq<
    char,
> {
    match o {
        Some(v) => val_text(v, dialect, module),
        None => Seq::empty(),
    }
}

/// The rendered text of a `for` statement.
pub open spec fn for_text(
    init: Seq<char>,
    cond: Seq<char>,
    step: Seq<char>,
    body: Seq<char>,
) -> Seq<char> {
    "for("@ + init + cond + ";"@ + step + ") {"@ + body + "}"@
}

/// Whether every given clause of a `for` statement renders.
pub open spec fn for_ok(
    init: Option<(CType, String, CValue)>,
    condition: Option<CValue>,
    step: Option<CValue>,
    gate: CDialect,
) -> bool {
    &&& (init matches Some(p) ==> type_ok(p.0) && value_ok(p.2, gate))
    &&& (condition matches Some(c) ==> value_ok(c, gate))
    &&& (step matches Some(v) ==> value_ok(v, gate))
}

/// Whether every given clause of a `for` statement renders purely.
pub open spec fn for_pure(
    init: Option<(CType, String, CValue)>,
    condition: Option<CValue>,
    step: Option<CValue>,
    gate: CDialect,
) -> bool {
    &&& (init matches Some(p) ==> type_pure(p.0) && value_pure(p.2, gate))
    &&& (condition matches Some(c) ==> value_pure(c, gate))
    &&& (step matches Some(v) ==> value_pure(v, gate))
}

impl Context {
    /// A bounded loop: each clause is optional, and an omitted condition
    /// renders as an always-true guard.  The body runs in a derived child
    /// scope and is folded back as the loop body.
    #[verifier::loop_isolation(false)]
    #[verifier::rlimit(100)]
    #[verifier::spinoff_prover]
    pub fn for_loop<F: Fn(Context) -> (Context, Variable)>(
        &mut self,
        init: Option<(CType, String, CValue)>,
        condition: Option<CValue>,
        step: Option<CValue>,
        block: F,
    ) -> (r: Result<(), CError>)
        requires
            forall|c: Context| #[trigger] call_requires(block, (c,)),
        ensures
            final(self).module@ == old(self).module@,
            final(self).dialect == old(self).dialect,
            var_texts(*final(self)) == var_texts(*old(self)),
            old(self).current_source@.is_prefix_of(final(self).current_source@),
            r is Ok <==> for_ok(init, condition, step, old(self).dialect),
            r is Ok ==> exists|cin: Context, cout: Context, rv: Variable|
                {
                    &&& #[trigger] call_ensures(block, (cin,), (cout, rv))
                    &&& derived_scope(cin, *old(self))
                    &&& global_texts(*old(self)).is_prefix_of(global_texts(cin))
                    &&& (for_pure(init, condition, step, old(self).dialect) ==> global_texts(cin)
                        == global_texts(*old(self)))
                    &&& final(self).globals == cout.globals
                    &&& (for_pure(init, condition, step, old(self).dialect)
                        ==> final(self).current_source@ == old(self).current_source@ + for_text(
                        for_init_text(init, old(self).dialect, old(self).module@),
                        opt_val_text(condition, old(self).dialect, old(self).module@),
                        opt_val_text(step, old(self).dialect, old(self).module@),
                        cout.current_source@,
                    ))
                },
    {
        let ghost pre = *self;
        proof {
            lemma_extends_refl(pre);
        }
        let d = self.dialect;
        let initp: String = match init {
            Some((t, n, v)) => {
                let t_text = match t.to_c(d, self) {
                    Ok(x) => x,
                    Err(e) => {
                        return Err(e);
                    },
                };
                let ghost m1 = *self;
                let mangled = escape::string_to_escape_to_c_ansi_id(
                    self.module.as_str(),
                    n.as_str(),
                );
                let v_text = match v.to_c(d, self) {
                    Ok(x) => x,
                    Err(e) => {
                        proof {
                            lemma_globals_implies_buffers(pre, m1);
                            lemma_extends_trans(pre, m1, *self);
                        }
                        return Err(e);
                    },
                };
                proof {
                    lemma_globals_implies_buffers(pre, m1);
                    lemma_extends_trans(pre, m1, *self);
                }
                let mut p = t_text;
                p.append(" ");
                p.append(mangled.as_str());
                p.append(" = ");
                p.append(v_text.as_str());
                p.append(";");
                p
            },
            None => {
                let mut p = String::new();
                p.append(";");
                p
            },
        };
        let ghost m2 = *self;
        let condp: String = match condition {
            Some(c) => {
                match c.to_c(d, self) {
                    Ok(x) => x,
                    Err(e) => {
                        proof {
                            lemma_extends_trans(pre, m2, *self);
                        }
                        return Err(e);
                    },
                }
            },
            None => String::new(),
        };
        let ghost m3 = *self;
        let stepp: String = match step {
            Some(v) => {
                match v.to_c(d, self) {
                    Ok(x) => x,
                    Err(e) => {
                        proof {
                            lemma_extends_trans(pre, m2, m3);
                            lemma_extends_trans(pre, m3, *self);
                        }
                        return Err(e);
                    },
                }
            },
            None => String::new(),
        };
        proof {
            lemma_extends_trans(pre, m2, m3);
            lemma_extends_trans(pre, m3, *self);
        }
        let child = self.derive_child();
        let ghost cin = child;
        let pair = block(child);
        let (cout, rv) = pair;
        let ghost cout_snap = cout;
        let ghost rv_snap = rv;
        let Context { globals: g2, current_source: cs2, .. } = cout;
        self.globals = g2;
        let ghost m4 = *self;
        self.current_source.append("for(");
        self.current_source.append(initp.as_str());
        self.current_source.append(condp.as_str());
        self.current_source.append(";");
        self.current_source.append(stepp.as_str());
        self.current_source.append(") {");
        self.current_source.append(cs2.as_str());
        self.current_source.append("}");
        proof {
            assert(call_ensures(block, (cin,), (cout_snap, rv_snap)));
            assert(derived_scope(cin, pre));
            assert(m4.current_source@ =~= self.current_source@.subrange(
                0,
                m4.current_source@.len() as int,
            ));
            lemma_prefix_trans(pre.current_source@, m4.current_source@, self.current_source@);
            if for_pure(init, condition, step, pre.dialect) {
                assert(initp@ =~= for_init_text(init, pre.dialect, pre.module@));
                assert(condp@ =~= opt_val_text(condition, pre.dialect, pre.module@));
                assert(stepp@ =~= opt_val_text(step, pre.dialect, pre.module@));
                assert(self.current_source@ =~= pre.current_source@ + for_text(
                    for_init_text(init, pre.dialect, pre.module@),
                    opt_val_text(condition, pre.dialect, pre.module@),
                    opt_val_text(step, pre.dialect, pre.module@),
                    cout_snap.current_source@,
                ));
            }
        }
        Ok(())
    }

    /// A literal-text pragma: `{name}`-style interpolation in `code` is
    /// mangled against the active namespace before insertion.  Legal under
    /// the standard dialect alone.
    pub fn raw_pragma(&mut self, code: String) -> (r: Result<(), CError>)
        ensures
            final(self).module@ == old(self).module@,
            final(self).dialect == old(self).dialect,
            var_texts(*final(self)) == var_texts(*old(self)),
            final(self).globals == old(self).globals,
            r is Ok <==> old(self).dialect == CDialect::Standard,
            r is Err ==> r == Err::<(), CError>(CError::UnsupportedDialectFeature) && *final(self)
                == *old(self),
            r is Ok ==> exists|x: Seq<char>, n: nat|
                #[trigger] crate::escape::rewrites_to(old(self).module@, code@, x, n)
                    && final(self).current_source@ == old(self).current_source@ + "#pragma "@ + x
                    + "\n"@,
    {
        if !matches!(self.dialect, CDialect::Standard) {
            return Err(CError::UnsupportedDialectFeature);
        }
        let ghost pre = *self;
        let replaced = escape::format_to_escape_replace(self.module.as_str(), code);
        self.current_source.append("#pragma ");
        self.current_source.append(replaced.as_str());
        self.current_source.append("\n");
        proof {
            assert(self.current_source@ =~= pre.current_source@ + "#pragma "@ + replaced@
                + "\n"@);
        }
        Ok(())
    }
}

/// The operand items wrapped in a constraint, joined by `, `.
pub open spec fn asm_ops(items: Seq<Seq<char>>, pre: Seq<char>, post: Seq<char>) -> Seq<char> {
    crate::c_cg::join_texts(items.map_values(|x: Seq<char>| pre + x + post), ", "@)
}

/// The instruction lines, each quoted, joined by newlines.
pub open spec fn asm_lines(code: Seq<Seq<char>>) -> Seq<char> {
    crate::c_cg::join_texts(
        code.map_values(|x: Seq<char>| "\""@ + x + "\""@),
        "\n"@,
    )
}

/// The full text of a guarded extended-assembly block: a preprocessor
/// guard from the architecture predicate table, the assembly lines, and
/// the operand sections for outputs, inputs, read-write operands and
/// clobbered registers.
pub open spec fn asm_text(
    arch: crate::c_cg::c_arch::Arch,
    volatile: bool,
    code: Seq<Seq<char>>,
    inputs: Seq<Seq<char>>,
    outputs: Seq<Seq<char>>,
    input_output: Seq<Seq<char>>,
    clobbers: Seq<Seq<char>>,
) -> Seq<char> {
    "#if "@ + crate::c_cg::c_arch::arch_pred_text(arch) + "\n __asm__ "@ + (if volatile {
        "volatile"@
    } else {
        Seq::empty()
    }) + " (\n"@ + asm_lines(code) + "\n"@ + "\n: "@ + asm_ops(outputs, " \"=r\"("@, ")"@)
        + "\n: "@ + asm_ops(inputs, " \"r\"("@, ")"@) + "\n: "@ + asm_ops(
        input_output,
        " \"r+\"("@,
        ")"@,
    ) + "\n: "@ + asm_ops(clobbers, " \""@, "\""@) + ")\n#endif\n"@
}

/// Wraps each string of `v` between `pre` and `post`.
fn map_wrap(v: &Vec<String>, pre: &str, post: &str) -> (r: Vec<String>)
    ensures
        crate::c_cg::texts_of(r@) == v@.map_values(|s: String| s@).map_values(
            |x: Seq<char>| pre@ + x + post@,
        ),
{
    let mut out: Vec<String> = Vec::new();
    let mut i: usize = 0;
    while i < v.len()
        invariant
            0 <= i <= v@.len(),
            out@.len() == i,
            forall|k: int| 0 <= k < i ==> #[trigger] out@[k]@ == pre@ + v@[k]@ + post@,
        decreases v@.len() - i,
    {
        let piece = crate::c_cg::cat3(pre, v[i].as_str(), post);
        out.push(piece);
        i = i + 1;
    }
    proof {
        assert(crate::c_cg::texts_of(out@) =~= v@.map_values(|s: String| s@).map_values(
            |x: Seq<char>| pre@ + x + post@,
        ));
    }
    out
}

impl Context {
    /// A guarded extended-assembly block with the three-colon operand-list
    /// syntax (and a fourth section for read-write operands).  Legal under
    /// the standard dialect alone.
    #[verifier::loop_isolation(false)]
    #[verifier::rlimit(100)]
    #[verifier::spinoff_prover]
    pub fn inline_asm(
        &mut self,
        arch: crate::c_cg::c_arch::Arch,
        volatile: bool,
        code: Vec<String>,
        inputs: Vec<Variable>,
        outputs: Vec<Variable>,
        input_output: Vec<Variable>,
        changed_registers: Vec<String>,
    ) -> (r: Result<(), CError>)
        ensures
            final(self).module@ == old(self).module@,
            final(self).dialect == old(self).dialect,
            var_texts(*final(self)) == var_texts(*old(self)),
            final(self).globals == old(self).globals,
            r is Ok <==> old(self).dialect == CDialect::Standard,
            r is Err ==> r == Err::<(), CError>(CError::UnsupportedDialectFeature) && *final(self)
                == *old(self),
            r is Ok ==> final(self).current_source@ == old(self).current_source@ + asm_text(
                arch,
                volatile,
                crate::c_cg::texts_of(code@),
                crate::c_cg::texts_of(inputs@),
                crate::c_cg::texts_of(outputs@),
                crate::c_cg::texts_of(input_output@),
                crate::c_cg::texts_of(changed_registers@),
            ),
    {
        if !matches!(self.dialect, CDialect::Standard) {
            return Err(CError::UnsupportedDialectFeature);
        }
        let ghost pre = *self;
        let d = self.dialect;
        let pred = crate::c_cg::c_arch::Arch::to_c(&arch, d, self);
        let lines_v = map_wrap(&code, "\"", "\"");
        let lines = crate::c_cg::join_strings(&lines_v, "\n");
        let outs_v = map_wrap(&outputs, " \"=r\"(", ")");
        let outs = crate::c_cg::join_strings(&outs_v, ", ");
        let ins_v = map_wrap(&inputs, " \"r\"(", ")");
        let ins = crate::c_cg::join_strings(&ins_v, ", ");
        let ios_v = map_wrap(&input_output, " \"r+\"(", ")");
        let ios = crate::c_cg::join_strings(&ios_v, ", ");
        let clb_v = map_wrap(&changed_registers, " \"", "\"");
        let clb = crate::c_cg::join_strings(&clb_v, ", ");
        self.current_source.append("#if ");
        self.current_source.append(pred.as_str());
        self.current_source.append("\n __asm__ ");
        if volatile {
            self.current_source.append("volatile");
        }
        self.current_source.append(" (\n");
        self.current_source.append(lines.as_str());
        self.current_source.append("\n");
        self.current_source.append("\n: ");
        self.current_source.append(outs.as_str());
        self.current_source.append("\n: ");
        self.current_source.append(ins.as_str());
        self.current_source.append("\n: ");
        self.current_source.append(ios.as_str());
        self.current_source.append("\n: ");
        self.current_source.append(clb.as_str());
        self.current_source.append(")\n#endif\n");
        proof {
            assert(crate::c_cg::texts_of(lines_v@) =~= crate::c_cg::texts_of(code@).map_values(
                |x: Seq<char>| "\""@ + x + "\""@,
            ));
            assert(crate::c_cg::texts_of(outs_v@) =~= crate::c_cg::texts_of(outputs@).map_values(
                |x: Seq<char>| " \"=r\"("@ + x + ")"@,
            ));
            assert(crate::c_cg::texts_of(ins_v@) =~= crate::c_cg::texts_of(inputs@).map_values(
                |x: Seq<char>| " \"r\"("@ + x + ")"@,
            ));
            assert(crate::c_cg::texts_of(ios_v@) =~= crate::c_cg::texts_of(
                input_output@,
            ).map_values(|x: Seq<char>| " \"r+\"("@ + x + ")"@));
            assert(crate::c_cg::texts_of(clb_v@) =~= crate::c_cg::texts_of(
                changed_registers@,
            ).map_values(|x: Seq<char>| " \""@ + x + "\""@));
            assert(lines@ == asm_lines(crate::c_cg::texts_of(code@)));
            assert(outs@ == asm_ops(crate::c_cg::texts_of(outputs@), " \"=r\"("@, ")"@));
            assert(ins@ == asm_ops(crate::c_cg::texts_of(inputs@), " \"r\"("@, ")"@));
            assert(ios@ == asm_ops(crate::c_cg::texts_of(input_output@), " \"r+\"("@, ")"@));
            assert(clb@ == asm_ops(crate::c_cg::texts_of(changed_registers@), " \""@, "\""@));
            assert(self.current_source@ =~= pre.current_source@ + asm_text(
                arch,
                volatile,
                crate::c_cg::texts_of(code@),
                crate::c_cg::texts_of(inputs@),
                crate::c_cg::texts_of(outputs@),
                crate::c_cg::texts_of(input_output@),
                crate::c_cg::texts_of(changed_registers@),
            ));
        }
        Ok(())
    }
}

/// The text that `local_inline_c` emits for `code`.
pub open spec fn local_inline_text(code: Seq<char>) -> Seq<char> {
    seq!['d', 'o', ' ', '{'] + code + seq!['}', ' ', 'w', 'h', 'i', 'l', 'e', '(', '0', ')', ';', '\n']
}

} // verus!
