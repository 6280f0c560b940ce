//! The value tree and its renderer.  Every composite node renders fully
//! parenthesized, so precedence is unambiguous under arbitrary nesting.
//! Rendering an array literal emits a fresh temporary
//! declaration-with-initializer into the current statement buffer and
//! returns the temporary's name, so value rendering is only valid while a
//! statement buffer is in scope.

use crate::c_cg::c_stmt::Context;
use crate::c_cg::{CDialect, CError};
use vstd::prelude::*;

verus! {

/// The suffix of an integer literal.
#[derive(Debug, Clone)]
pub enum IntegerSuffix {
    NoSuffix,
    U32,
    I64,
    U64,
}

/// The suffix of a floating-point literal.
#[derive(Debug, Clone)]
pub enum FloatSuffix {
    NoSuffix,
    F32,
    F64,
}

/// A literal.  A floating-point literal carries its decimal spelling as
/// text, so the tree itself holds no floating-point value.
#[derive(Debug, Clone)]
pub enum CLiteral {
    Int(usize, IntegerSuffix),
    Float(String, FloatSuffix),
    CChar(char),
    CString(String),
}

/// A value: an expression tree.
pub enum CValue {
    Literal(CLiteral),
    Variable(String),
    /// An array literal together with its array type.
    Array(CType, Vec<CValue>),
    /// A struct literal: named-field initializers in caller-given order.
    Struct(Vec<(String, CValue)>),
    /// A union literal; legal under the standard dialect alone.
    Union(Vec<(String, CValue)>),
    Reference(Box<CValue>),
    Dereference(Box<CValue>),
    MemberAccess(Box<CValue>, String),
    IndexAccess(Box<CValue>, Box<CValue>),
    FunctionCall(Box<CValue>, Vec<CValue>),
    BinOp(String, Box<CValue>, Box<CValue>),
    PrefixOp(String, Box<CValue>),
    PostfixOp(String, Box<CValue>),
    /// Reserved extension point; it has no renderer and must fail.
    AutoDiff(String, Vec<CValue>),
}

use crate::c_cg::c_stmt::{
    extends_buffers, lemma_extends_refl, lemma_extends_trans, lemma_globals_implies_buffers,
};
use crate::c_cg::c_stmt::global_texts;
use crate::c_cg::c_type::{type_ok, type_pure, type_text, CType};
use crate::c_cg::{push_dec, ToC};
use crate::escape;

/// The suffix text of an integer literal: emitted under the standard
/// dialect, suppressed otherwise.
pub open spec fn int_suffix_text(s: IntegerSuffix, dialect: CDialect) -> Seq<char> {
    if dialect == CDialect::Standard {
        match s {
            IntegerSuffix::NoSuffix => Seq::empty(),
            IntegerSuffix::U32 => "u"@,
            IntegerSuffix::I64 => "l"@,
            IntegerSuffix::U64 => "ul"@,
        }
    } else {
        Seq::empty()
    }
}

/// The suffix text of a floating-point literal: emitted under the standard
/// dialect, suppressed otherwise.
pub open spec fn float_suffix_text(s: FloatSuffix, dialect: CDialect) -> Seq<char> {
    if dialect == CDialect::Standard {
        match s {
            FloatSuffix::NoSuffix => Seq::empty(),
            FloatSuffix::F32 => "f"@,
            FloatSuffix::F64 => "l"@,
        }
    } else {
        Seq::empty()
    }
}

/// The text of a literal.
pub open spec fn lit_text(l: CLiteral, dialect: CDialect) -> Seq<char> {
    match l {
        CLiteral::Int(v, suf) => crate::c_cg::dec_str(v as nat) + int_suffix_text(suf, dialect),
        CLiteral::Float(txt, suf) => txt@ + float_suffix_text(suf, dialect),
        CLiteral::CChar(c) => seq!['\''] + seq![c] + seq!['\''],
        CLiteral::CString(s) => seq!['"'] + s@ + seq!['"'],
    }
}

/// Whether `v` renders without failure: the `AutoDiff` node always fails,
/// a union literal is legal under the standard dialect alone, and an array
/// literal must hold an array type whose element type renders.
pub open spec fn value_ok(v: CValue, gate: CDialect) -> bool
    decreases v,
{
    match v {
        CValue::Literal(..) => true,
        CValue::Variable(..) => true,
        CValue::Array(ty, vals) => (match ty {
            CType::Array { ty: elem, .. } => type_ok(*elem),
            _ => false,
        }) && forall|i: int| 0 <= i < vals@.len() ==> value_ok(#[trigger] vals@[i], gate),
        CValue::Struct(fs) => forall|i: int|
            0 <= i < fs@.len() ==> value_ok(#[trigger] fs@[i].1, gate),
        CValue::Union(fs) => gate == CDialect::Standard && forall|i: int|
            0 <= i < fs@.len() ==> value_ok(#[trigger] fs@[i].1, gate),
        CValue::Reference(x) => value_ok(*x, gate),
        CValue::Dereference(x) => value_ok(*x, gate),
        CValue::MemberAccess(x, ..) => value_ok(*x, gate),
        CValue::IndexAccess(x, ix) => value_ok(*x, gate) && value_ok(*ix, gate),
        CValue::FunctionCall(f, args) => value_ok(*f, gate) && forall|i: int|
            0 <= i < args@.len() ==> value_ok(#[trigger] args@[i], gate),
        CValue::BinOp(_, l, r) => value_ok(*l, gate) && value_ok(*r, gate),
        CValue::PrefixOp(_, x) => value_ok(*x, gate),
        CValue::PostfixOp(_, x) => value_ok(*x, gate),
        CValue::AutoDiff(..) => false,
    }
}

/// Whether rendering `v` is pure: no array literal inside, so no temporary
/// is emitted and the text is a function of the value alone.
pub open spec fn value_pure(v: CValue, gate: CDialect) -> bool
    decreases v,
{
    match v {
        CValue::Literal(..) => true,
        CValue::Variable(..) => true,
        CValue::Array(..) => false,
        CValue::Struct(fs) => forall|i: int|
            0 <= i < fs@.len() ==> value_pure(#[trigger] fs@[i].1, gate),
        CValue::Union(fs) => gate == CDialect::Standard && forall|i: int|
            0 <= i < fs@.len() ==> value_pure(#[trigger] fs@[i].1, gate),
        CValue::Reference(x) => value_pure(*x, gate),
        CValue::Dereference(x) => value_pure(*x, gate),
        CValue::MemberAccess(x, ..) => value_pure(*x, gate),
        CValue::IndexAccess(x, ix) => value_pure(*x, gate) && value_pure(*ix, gate),
        CValue::FunctionCall(f, args) => value_pure(*f, gate) && forall|i: int|
            0 <= i < args@.len() ==> value_pure(#[trigger] args@[i], gate),
        CValue::BinOp(_, l, r) => value_pure(*l, gate) && value_pure(*r, gate),
        CValue::PrefixOp(_, x) => value_pure(*x, gate),
        CValue::PostfixOp(_, x) => value_pure(*x, gate),
        CValue::AutoDiff(..) => false,
    }
}

/// The text of a pure value, rendered against `module` under `dialect`.
pub open spec fn val_text(v: CValue, dialect: CDialect, module: Seq<char>) -> Seq<char>
    decreases v, 0int, 0int,
{
    match v {
        CValue::Literal(l) => lit_text(l, dialect),
        CValue::Variable(nm) => crate::escape::mangle_qualified(module, nm@),
        CValue::Array(..) => Seq::empty(),
        CValue::Struct(fs) => "{ "@ + field_texts(fs@, fs@.len() as int, dialect, module) + " }"@,
        CValue::Union(fs) => "{ "@ + field_texts(fs@, fs@.len() as int, dialect, module) + " }"@,
        CValue::Reference(x) => "(&"@ + val_text(*x, dialect, module) + ")"@,
        CValue::Dereference(x) => "(*"@ + val_text(*x, dialect, module) + ")"@,
        CValue::MemberAccess(x, m) => "("@ + val_text(*x, dialect, module) + "."@ + m@ + ")"@,
        CValue::IndexAccess(x, ix) => "("@ + val_text(*x, dialect, module) + "["@ + val_text(
            *ix,
            dialect,
            module,
        ) + "])"@,
        CValue::FunctionCall(f, args) => "("@ + val_text(*f, dialect, module) + "("@ + arg_texts(
            args@,
            args@.len() as int,
            dialect,
            module,
        ) + "))"@,
        CValue::BinOp(op, l, r) => "("@ + val_text(*l, dialect, module) + " "@ + op@ + " "@
            + val_text(*r, dialect, module) + ")"@,
        CValue::PrefixOp(op, x) => "("@ + op@ + val_text(*x, dialect, module) + ")"@,
        CValue::PostfixOp(op, x) => "("@ + val_text(*x, dialect, module) + op@ + ")"@,
        CValue::AutoDiff(..) => Seq::empty(),
    }
}

/// The type an array literal carries, `Void` elsewhere.
pub open spec fn array_ty(v: CValue) -> CType {
    match v {
        CValue::Array(t, _) => t,
        _ => CType::Void,
    }
}

/// The values of an array literal, empty elsewhere.
pub open spec fn array_vals(v: CValue) -> Seq<CValue> {
    match v {
        CValue::Array(_, vs) => vs@,
        _ => Seq::empty(),
    }
}

/// The element type of an array literal's array type, `Void` elsewhere.
pub open spec fn array_elem(v: CValue) -> CType {
    match array_ty(v) {
        CType::Array { ty, .. } => *ty,
        _ => CType::Void,
    }
}

/// The size of an array literal's array type.
pub open spec fn array_size(v: CValue) -> Option<usize> {
    match array_ty(v) {
        CType::Array { size, .. } => size,
        _ => None,
    }
}

/// The temporary declaration an array literal emits into the statement
/// buffer.
pub open spec fn array_decl_text(
    elem: Seq<char>,
    nm: Seq<char>,
    size: Option<usize>,
    vals: Seq<char>,
) -> Seq<char> {
    elem + " "@ + nm + "["@ + (match size {
        Some(sz) => crate::c_cg::dec_str(sz as nat),
        None => Seq::empty(),
    }) + "] = { "@ + vals + " };"@
}

/// The shape of a successful rendering, whatever the operands rendered to:
/// every composite is fully parenthesized, a struct or union literal is a
/// braced initializer list, an array literal returns a generated temporary
/// name, and a leaf renders to its exact text.
pub open spec fn rendered_shape(v: CValue, t: Seq<char>, dialect: CDialect, module: Seq<char>) -> bool {
    match v {
        CValue::Literal(l) => t == lit_text(l, dialect),
        CValue::Variable(nm) => t == crate::escape::mangle_qualified(module, nm@),
        CValue::Array(..) => crate::escape::is_temp_name(t, module),
        CValue::Struct(..) => exists|b: Seq<char>| t == "{ "@ + b + " }"@,
        CValue::Union(..) => exists|b: Seq<char>| t == "{ "@ + b + " }"@,
        CValue::Reference(..) => exists|a: Seq<char>| t == "(&"@ + a + ")"@,
        CValue::Dereference(..) => exists|a: Seq<char>| t == "(*"@ + a + ")"@,
        CValue::MemberAccess(_, m) => exists|a: Seq<char>| t == "("@ + a + "."@ + m@ + ")"@,
        CValue::IndexAccess(..) => exists|a: Seq<char>, b: Seq<char>| t == "("@ + a + "["@ + b
            + "])"@,
        CValue::FunctionCall(..) => exists|a: Seq<char>, b: Seq<char>| t == "("@ + a + "("@ + b
            + "))"@,
        CValue::BinOp(op, ..) => exists|a: Seq<char>, b: Seq<char>| t == "("@ + a + " "@ + op@
            + " "@ + b + ")"@,
        CValue::PrefixOp(op, ..) => exists|a: Seq<char>| t == "("@ + op@ + a + ")"@,
        CValue::PostfixOp(op, ..) => exists|a: Seq<char>| t == "("@ + a + op@ + ")"@,
        CValue::AutoDiff(..) => false,
    }
}

impl CLiteral {
    /// The text of this literal; rendering it is pure.  Suffixes are
    /// emitted under the standard dialect and suppressed otherwise.
    pub fn to_c(&self, dialect: CDialect, _context: &Context) -> (r: String)
        ensures
            r@ == lit_text(*self, dialect),
    {
        let mut out = String::new();
        match self {
            CLiteral::Int(v, suf) => {
                push_dec(&mut out, *v);
                if dialect == CDialect::Standard {
                    match suf {
                        IntegerSuffix::NoSuffix => (),
                        IntegerSuffix::U32 => out.append("u"),
                        IntegerSuffix::I64 => out.append("l"),
                        IntegerSuffix::U64 => out.append("ul"),
                    }
                }
                assert(out@ =~= lit_text(*self, dialect));
            },
            CLiteral::Float(txt, suf) => {
                out.append(txt.as_str());
                if dialect == CDialect::Standard {
                    match suf {
                        FloatSuffix::NoSuffix => (),
                        FloatSuffix::F32 => out.append("f"),
                        FloatSuffix::F64 => out.append("l"),
                    }
                }
                assert(out@ =~= lit_text(*self, dialect));
            },
            CLiteral::CChar(c) => {
                escape::push_char(&mut out, '\'');
                escape::push_char(&mut out, *c);
                escape::push_char(&mut out, '\'');
                assert(out@ =~= lit_text(*self, dialect));
            },
            CLiteral::CString(s) => {
                escape::push_char(&mut out, '"');
                out.append(s.as_str());
                escape::push_char(&mut out, '"');
                assert(out@ =~= lit_text(*self, dialect));
            },
        }
        out
    }
}

impl ToC for CLiteral {
    fn to_c(&self, dialect: CDialect, context: &mut Context) -> Result<String, CError> {
        Ok(CLiteral::to_c(self, dialect, context))
    }
}

impl CValue {
    /// Renders this value as a fully parenthesized C expression.  A pure
    /// value renders to a fixed text and touches nothing; an array literal
    /// emits a fresh temporary declaration into the current statement
    /// buffer and returns the temporary's name; a union literal outside
    /// the standard dialect and the reserved automatic-differentiation
    /// node fail with an explicit signal.
    #[verifier::loop_isolation(false)]
    #[verifier::rlimit(100)]
    #[verifier::spinoff_prover]
    pub fn to_c(&self, dialect: CDialect, context: &mut Context) -> (r: Result<String, CError>)
        ensures
            extends_buffers(*old(context), *final(context)),
            r is Ok <==> value_ok(*self, old(context).dialect),
            r matches Err(e) ==> e != CError::MalformedConditional,
            self is AutoDiff ==> r == Err::<String, CError>(CError::UnimplementedConstruct)
                && *final(context) == *old(context),
            self is Union && old(context).dialect != CDialect::Standard ==> r == Err::<
                String,
                CError,
            >(CError::UnsupportedDialectFeature) && *final(context) == *old(context),
            value_pure(*self, old(context).dialect) ==> *final(context) == *old(context) && (
            r matches Ok(t) && t@ == val_text(*self, dialect, old(context).module@)),
            r matches Ok(t) ==> rendered_shape(*self, t@, dialect, old(context).module@),
        decreases *self, 1int,
    {
        proof {
            lemma_extends_refl(*context);
        }
        match self {
            CValue::Literal(l) => Ok(CLiteral::to_c(l, dialect, context)),
            CValue::Variable(nm) => {
                let r = escape::string_to_escape_to_c_ansi_id(
                    context.module.as_str(),
                    nm.as_str(),
                );
                Ok(r)
            },
            CValue::Reference(x) => {
                let t = match x.to_c(dialect, context) {
                    Ok(t) => t,
                    Err(e) => {
                        return Err(e);
                    },
                };
                let out = crate::c_cg::cat3("(&", t.as_str(), ")");
                proof {
                    if value_pure(*self, old(context).dialect) {
                        assert(out@ =~= val_text(*self, dialect, old(context).module@));
                    }
                }
                Ok(out)
            },
            CValue::Dereference(x) => {
                let t = match x.to_c(dialect, context) {
                    Ok(t) => t,
                    Err(e) => {
                        return Err(e);
                    },
                };
                let out = crate::c_cg::cat3("(*", t.as_str(), ")");
                proof {
                    if value_pure(*self, old(context).dialect) {
                        assert(out@ =~= val_text(*self, dialect, old(context).module@));
                    }
                }
                Ok(out)
            },
            CValue::MemberAccess(x, m) => {
                let t = match x.to_c(dialect, context) {
                    Ok(t) => t,
                    Err(e) => {
                        return Err(e);
                    },
                };
                let out = crate::c_cg::cat5("(", t.as_str(), ".", m.as_str(), ")");
                proof {
                    if value_pure(*self, old(context).dialect) {
                        assert(out@ =~= val_text(*self, dialect, old(context).module@));
                    }
                }
                Ok(out)
            },
            CValue::AutoDiff(..) => Err(CError::UnimplementedConstruct),
            _ => self.to_c_rest(dialect, context),
        }
    }

    /// The composite arms of `to_c`, split out to keep each proof small.
    #[verifier::loop_isolation(false)]
    #[verifier::rlimit(100)]
    #[verifier::spinoff_prover]
    fn to_c_rest(&self, dialect: CDialect, context: &mut Context) -> (r: Result<String, CError>)
        requires
            self is IndexAccess || self is BinOp || self is PrefixOp || self is PostfixOp
                || self is FunctionCall || self is Struct || self is Union || self is Array,
        ensures
            extends_buffers(*old(context), *final(context)),
            r is Ok <==> value_ok(*self, old(context).dialect),
            r matches Err(e) ==> e != CError::MalformedConditional,
            self is AutoDiff ==> r == Err::<String, CError>(CError::UnimplementedConstruct)
                && *final(context) == *old(context),
            self is Union && old(context).dialect != CDialect::Standard ==> r == Err::<
                String,
                CError,
            >(CError::UnsupportedDialectFeature) && *final(context) == *old(context),
            value_pure(*self, old(context).dialect) ==> *final(context) == *old(context) && (
            r matches Ok(t) && t@ == val_text(*self, dialect, old(context).module@)),
            r matches Ok(t) ==> rendered_shape(*self, t@, dialect, old(context).module@),
            (self is Array && type_pure(array_elem(*self)) && (array_ty(*self) is Array) && (
            forall|i: int|
                0 <= i < array_vals(*self).len() ==> value_pure(
                    #[trigger] array_vals(*self)[i],
                    old(context).dialect,
                ))) ==> exists|nm: Seq<char>|
                {
                    &&& #[trigger] crate::escape::is_temp_name(nm, old(context).module@)
                    &&& (r matches Ok(t) && t@ == nm)
                    &&& final(context).current_source@ == old(context).current_source@
                        + array_decl_text(
                        type_text(array_elem(*self)),
                        nm,
                        array_size(*self),
                        arg_texts(
                            array_vals(*self),
                            array_vals(*self).len() as int,
                            dialect,
                            old(context).module@,
                        ),
                    )
                    &&& global_texts(*final(context)) == global_texts(*old(context))
                },
        decreases *self, 0int,
    {
        proof {
            lemma_extends_refl(*context);
        }
        match self {
            CValue::IndexAccess(x, ix) => {
                let ghost pre = *context;
                let t = match x.to_c(dialect, context) {
                    Ok(t) => t,
                    Err(e) => {
                        return Err(e);
                    },
                };
                let ghost mid = *context;
                let ti = match ix.to_c(dialect, context) {
                    Ok(t) => t,
                    Err(e) => {
                        proof {
                            lemma_extends_trans(pre, mid, *context);
                        }
                        return Err(e);
                    },
                };
                proof {
                    lemma_extends_trans(pre, mid, *context);
                }
                let out = crate::c_cg::cat5("(", t.as_str(), "[", ti.as_str(), "])");
                proof {
                    if value_pure(*self, old(context).dialect) {
                        assert(out@ =~= val_text(*self, dialect, old(context).module@));
                    }
                }
                Ok(out)
            },
            CValue::BinOp(op, l, r) => {
                let ghost pre = *context;
                let tl = match l.to_c(dialect, context) {
                    Ok(t) => t,
                    Err(e) => {
                        return Err(e);
                    },
                };
                let ghost mid = *context;
                let tr = match r.to_c(dialect, context) {
                    Ok(t) => t,
                    Err(e) => {
                        proof {
                            lemma_extends_trans(pre, mid, *context);
                        }
                        return Err(e);
                    },
                };
                proof {
                    lemma_extends_trans(pre, mid, *context);
                }
                let out = crate::c_cg::cat7("(", tl.as_str(), " ", op.as_str(), " ", tr.as_str(), ")");
                proof {
                    if value_pure(*self, old(context).dialect) {
                        assert(out@ =~= val_text(*self, dialect, old(context).module@));
                    }
                }
                Ok(out)
            },
            CValue::PrefixOp(op, x) => {
                let t = match x.to_c(dialect, context) {
                    Ok(t) => t,
                    Err(e) => {
                        return Err(e);
                    },
                };
                let out = crate::c_cg::cat4("(", op.as_str(), t.as_str(), ")");
                proof {
                    if value_pure(*self, old(context).dialect) {
                        assert(out@ =~= val_text(*self, dialect, old(context).module@));
                    }
                }
                Ok(out)
            },
            CValue::PostfixOp(op, x) => {
                let t = match x.to_c(dialect, context) {
                    Ok(t) => t,
                    Err(e) => {
                        return Err(e);
                    },
                };
                let out = crate::c_cg::cat4("(", t.as_str(), op.as_str(), ")");
                proof {
                    if value_pure(*self, old(context).dialect) {
                        assert(out@ =~= val_text(*self, dialect, old(context).module@));
                    }
                }
                Ok(out)
            },
            CValue::FunctionCall(f, args) => {
                let ghost pre = *context;
                let tf = match f.to_c(dialect, context) {
                    Ok(t) => t,
                    Err(e) => {
                        return Err(e);
                    },
                };
                let ghost mid = *context;
                let joined = match render_args(args, dialect, context) {
                    Ok(t) => t,
                    Err(e) => {
                        proof {
                            lemma_extends_trans(pre, mid, *context);
                        }
                        return Err(e);
                    },
                };
                proof {
                    lemma_extends_trans(pre, mid, *context);
                }
                let out = crate::c_cg::cat5("(", tf.as_str(), "(", joined.as_str(), "))");
                proof {
                    if value_pure(*self, old(context).dialect) {
                        assert(out@ =~= val_text(*self, dialect, old(context).module@));
                    }
                }
                Ok(out)
            },
            CValue::Struct(fs) => {
                let joined = match render_initializers(fs, dialect, context) {
                    Ok(t) => t,
                    Err(e) => {
                        return Err(e);
                    },
                };
                let out = crate::c_cg::cat3("{ ", joined.as_str(), " }");
                proof {
                    if value_pure(*self, old(context).dialect) {
                        assert(out@ =~= val_text(*self, dialect, old(context).module@));
                    }
                }
                Ok(out)
            },
            CValue::Union(fs) => {
                if !matches!(context.dialect, CDialect::Standard) {
                    return Err(CError::UnsupportedDialectFeature);
                }
                let joined = match render_initializers(fs, dialect, context) {
                    Ok(t) => t,
                    Err(e) => {
                        return Err(e);
                    },
                };
                let out = crate::c_cg::cat3("{ ", joined.as_str(), " }");
                proof {
                    if value_pure(*self, old(context).dialect) {
                        assert(out@ =~= val_text(*self, dialect, old(context).module@));
                    }
                }
                Ok(out)
            },
            CValue::Array(ty, vals) => {
                let ghost pre = *context;
                let joined = match render_args(vals, dialect, context) {
                    Ok(t) => t,
                    Err(e) => {
                        proof {
                            assert(array_vals(*self) == vals@);
                        }
                        return Err(e);
                    },
                };
                let name = escape::get_temp_variable_name(context.module.as_str());
                match ty {
                    CType::Array { ty: elem, size } => {
                        let ghost mid2 = *context;
                        let elem_text = match elem.to_c(dialect, context) {
                            Ok(t) => t,
                            Err(e) => {
                                proof {
                                    let m3 = *context;
                                    lemma_globals_implies_buffers(mid2, m3);
                                    lemma_extends_trans(pre, mid2, m3);
                                    assert(array_elem(*self) == *(*elem));
                                }
                                return Err(e);
                            },
                        };
                        let mut code = elem_text;
                        code.append(" ");
                        code.append(name.as_str());
                        code.append("[");
                        match size {
                            Some(s) => push_dec(&mut code, *s),
                            None => (),
                        }
                        code.append("] = { ");
                        code.append(joined.as_str());
                        code.append(" };");
                        let ghost mid3 = *context;
                        context.current_source.append(code.as_str());
                        proof {
                            lemma_globals_implies_buffers(mid2, mid3);
                            lemma_extends_trans(pre, mid2, mid3);
                            assert(mid3.current_source@ =~= context.current_source@.subrange(
                                0,
                                mid3.current_source@.len() as int,
                            ));
                            assert(extends_buffers(mid3, *context));
                            lemma_extends_trans(pre, mid3, *context);
                            assert(array_ty(*self) == *ty);
                            assert(array_vals(*self) == vals@);
                            assert(array_elem(*self) == *(*elem));
                            assert(array_size(*self) == *size);
                            if type_pure(*(*elem)) && (forall|k: int|
                                0 <= k < vals@.len() ==> value_pure(
                                    #[trigger] vals@[k],
                                    pre.dialect,
                                )) {
                                assert(joined@ == arg_texts(
                                    vals@,
                                    vals@.len() as int,
                                    dialect,
                                    pre.module@,
                                ));
                                assert(elem_text@ == type_text(*(*elem)));
                                assert(mid3 == pre);
                                assert(code@ =~= array_decl_text(
                                    type_text(*(*elem)),
                                    name@,
                                    *size,
                                    arg_texts(vals@, vals@.len() as int, dialect, pre.module@),
                                ));
                                assert(context.current_source@ =~= pre.current_source@
                                    + array_decl_text(
                                    type_text(*(*elem)),
                                    name@,
                                    *size,
                                    arg_texts(vals@, vals@.len() as int, dialect, pre.module@),
                                ));
                                assert(global_texts(*context) =~= global_texts(pre));
                            }
                        }
                        Ok(name)
                    },
                    _ => {
                        proof {
                            assert(array_ty(*self) == *ty);
                            assert(!(array_ty(*self) is Array));
                        }
                        Err(CError::UnimplementedConstruct)
                    },
                }
            },
            _ => {
                proof {
                    assert(false);
                }
                Err(CError::UnimplementedConstruct)
            },
        }
    }
}


/// Renders the values of `args` and joins the texts with `, `.
#[verifier::loop_isolation(false)]
fn render_args(args: &Vec<CValue>, dialect: CDialect, context: &mut Context) -> (r: Result<
    String,
    CError,
>)
    ensures
        extends_buffers(*old(context), *final(context)),
        r is Ok <==> forall|i: int|
            0 <= i < args@.len() ==> value_ok(#[trigger] args@[i], old(context).dialect),
        r matches Err(e) ==> e != CError::MalformedConditional,
        (forall|i: int| 0 <= i < args@.len() ==> value_pure(#[trigger] args@[i], old(context).dialect))
            ==> *final(context) == *old(context) && (r matches Ok(t) && t@ == arg_texts(
            args@,
            args@.len() as int,
            dialect,
            old(context).module@,
        )),
    decreases args@, 1int,
{
    let ghost pre = *context;
    proof {
        lemma_extends_refl(pre);
    }
    let mut joined = String::new();
    let mut i: usize = 0;
    while i < args.len()
        invariant
            0 <= i <= args@.len(),
            extends_buffers(pre, *context),
            forall|k: int| 0 <= k < i ==> value_ok(#[trigger] args@[k], pre.dialect),
            (forall|k: int| 0 <= k < args@.len() ==> value_pure(#[trigger] args@[k], pre.dialect))
                ==> *context == pre && joined@ == arg_texts(args@, i as int, dialect, pre.module@),
        decreases args@.len() - i,
    {
        let ghost mid = *context;
        let part = match args[i].to_c(dialect, context) {
            Ok(t) => t,
            Err(e) => {
                proof {
                    assert(!value_ok(args@[i as int], pre.dialect));
                    lemma_extends_trans(pre, mid, *context);
                }
                return Err(e);
            },
        };
        if i > 0 {
            joined.append(", ");
        }
        joined.append(part.as_str());
        proof {
            lemma_extends_trans(pre, mid, *context);
            if forall|k: int| 0 <= k < args@.len() ==> value_pure(#[trigger] args@[k], pre.dialect) {
                assert(joined@ =~= arg_texts(args@, i + 1, dialect, pre.module@));
            }
        }
        i = i + 1;
    }
    Ok(joined)
}

/// Renders the `.name = value` initializers of `fs` and joins them with `, `.
#[verifier::loop_isolation(false)]
fn render_initializers(fs: &Vec<(String, CValue)>, dialect: CDialect, context: &mut Context) -> (r:
    Result<String, CError>)
    ensures
        extends_buffers(*old(context), *final(context)),
        r is Ok <==> forall|i: int|
            0 <= i < fs@.len() ==> value_ok(#[trigger] fs@[i].1, old(context).dialect),
        r matches Err(e) ==> e != CError::MalformedConditional,
        (forall|i: int| 0 <= i < fs@.len() ==> value_pure(#[trigger] fs@[i].1, old(context).dialect))
            ==> *final(context) == *old(context) && (r matches Ok(t) && t@ == field_texts(
            fs@,
            fs@.len() as int,
            dialect,
            old(context).module@,
        )),
    decreases fs@, 1int,
{
    let ghost pre = *context;
    proof {
        lemma_extends_refl(pre);
    }
    let mut joined = String::new();
    let mut i: usize = 0;
    while i < fs.len()
        invariant
            0 <= i <= fs@.len(),
            extends_buffers(pre, *context),
            forall|k: int| 0 <= k < i ==> value_ok(#[trigger] fs@[k].1, pre.dialect),
            (forall|k: int| 0 <= k < fs@.len() ==> value_pure(#[trigger] fs@[k].1, pre.dialect))
                ==> *context == pre && joined@ == field_texts(fs@, i as int, dialect, pre.module@),
        decreases fs@.len() - i,
    {
        let ghost mid = *context;
        let part = match fs[i].1.to_c(dialect, context) {
            Ok(t) => t,
            Err(e) => {
                proof {
                    assert(!value_ok(fs@[i as int].1, pre.dialect));
                    lemma_extends_trans(pre, mid, *context);
                }
                return Err(e);
            },
        };
        if i > 0 {
            joined.append(", ");
        }
        joined.append(".");
        joined.append(fs[i].0.as_str());
        joined.append(" = ");
        joined.append(part.as_str());
        proof {
            lemma_extends_trans(pre, mid, *context);
            if forall|k: int| 0 <= k < fs@.len() ==> value_pure(#[trigger] fs@[k].1, pre.dialect) {
                assert(joined@ =~= field_texts(fs@, i + 1, dialect, pre.module@));
            }
        }
        i = i + 1;
    }
    Ok(joined)
}

impl ToC for CValue {
    fn to_c(&self, dialect: CDialect, context: &mut Context) -> Result<String, CError> {
        CValue::to_c(self, dialect, context)
    }
}

/// The `.name = value` initializers of the first `i` fields of a struct or
/// union literal, joined by `, `.
pub open spec fn field_texts(
    fs: Seq<(String, CValue)>,
    i: int,
    dialect: CDialect,
    module: Seq<char>,
) -> Seq<char>
    decreases fs, i, 1int,
{
    if i <= 0 || i > fs.len() {
        Seq::empty()
    } else {
        let one = "."@ + fs[i - 1].0@ + " = "@ + val_text(fs[i - 1].1, dialect, module);
        if i == 1 {
            one
        } else {
            field_texts(fs, i - 1, dialect, module) + ", "@ + one
        }
    }
}

/// The texts of the first `i` arguments of a call, joined by `, `.
pub open spec fn arg_texts(args: Seq<CValue>, i: int, dialect: CDialect, module: Seq<char>) -> Seq<
    char,
>
    decreases args, i, 1int,
{
    if i <= 0 || i > args.len() {
        Seq::empty()
    } else {
        let one = val_text(args[i - 1], dialect, module);
        if i == 1 {
            one
        } else {
            arg_texts(args, i - 1, dialect, module) + ", "@ + one
        }
    }
}

} // verus!
