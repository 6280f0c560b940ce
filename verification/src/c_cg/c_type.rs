//! The type tree and its renderer.  Rendering a struct or function-pointer
//! type registers exactly one fresh top-level declaration in the shared
//! collection and returns a reference to its generated name; every
//! occurrence registers anew, deduplication is a non-goal.  Extension
//! variants have no renderer and fail explicitly.

use crate::c_cg::c_stmt::{extends_globals, global_texts, Context};
use crate::c_cg::{dec_str, join_texts, push_dec, CDialect, CError, ToC};
use crate::escape;
use vstd::prelude::*;

verus! {

/// A packing/alignment attribute of a struct.
#[derive(Debug, Clone, PartialEq, Eq)]
pub enum Repr {
    Packed,
    Aligned(usize),
    PackedAligned(usize),
}

/// The attribute text of a `Repr`.
pub open spec fn repr_text(r: Repr) -> Seq<char> {
    match r {
        Repr::Packed => "__attribute__ ((packed))"@,
        Repr::Aligned(a) => "__attribute__ ((aligned("@ + dec_str(a as nat) + ")))"@,
        Repr::PackedAligned(a) => "__attribute__ ((packed, aligned("@ + dec_str(a as nat)
            + ")))"@,
    }
}

impl Repr {
    /// The attribute text of this `Repr`; rendering it is pure.
    pub fn to_c(&self, _dialect: CDialect, _context: &Context) -> (r: String)
        ensures
            r@ == repr_text(*self),
    {
        let mut out = String::new();
        match self {
            Repr::Packed => {
                out.append("__attribute__ ((packed))");
            },
            Repr::Aligned(a) => {
                out.append("__attribute__ ((aligned(");
                push_dec(&mut out, *a);
                out.append(")))");
                assert(out@ =~= repr_text(*self));
            },
            Repr::PackedAligned(a) => {
                out.append("__attribute__ ((packed, aligned(");
                push_dec(&mut out, *a);
                out.append(")))");
                assert(out@ =~= repr_text(*self));
            },
        }
        out
    }
}

impl ToC for Repr {
    fn to_c(&self, dialect: CDialect, context: &mut Context) -> Result<String, CError> {
        Ok(Repr::to_c(self, dialect, context))
    }
}

/// Extended scalar kinds of modern C; declared but not rendered.
#[derive(Debug, Clone, PartialEq, Eq)]
pub enum ModernCTypes {
    F16,
    I128,
    U128,
    F128,
}

/// GPU vector/matrix kinds; declared but not rendered.
#[derive(Debug, PartialEq, Eq)]
pub enum GLSLType {
    Vector { ty: Box<CType>, size: usize },
    Matrix { ty: Box<CType>, rows: usize, cols: usize },
}

/// A C type.
#[derive(Debug, PartialEq, Eq)]
pub enum CType {
    Void,
    I8,
    I16,
    I32,
    I64,
    U8,
    U16,
    U32,
    U64,
    F32,
    F64,
    /// A struct with named fields in caller-given order and an optional
    /// packing/alignment attribute.
    Struct { repr: Option<Repr>, fields: Vec<(String, CType)> },
    /// A bit-field struct; it has no renderer.
    BitField { fields: Vec<(String, (CType, usize))> },
    Array { ty: Box<CType>, size: Option<usize> },
    Pointer { ty: Box<CType> },
    Const { ty: Box<CType> },
    FunctionPointer { return_ty: Box<CType>, arguments: Vec<CType> },
    UniformCallBack,
    ModernCExtension(ModernCTypes),
    GLSLExtension(GLSLType),
    OpenCLExtension,
    CudaExtension,
}

/// Whether rendering `t` succeeds: extension variants and bit-fields have
/// no renderer, and a composite renders when all its parts do.
pub open spec fn type_ok(t: CType) -> bool
    decreases t,
{
    match t {
        CType::Void => true,
        CType::I8 => true,
        CType::I16 => true,
        CType::I32 => true,
        CType::I64 => true,
        CType::U8 => true,
        CType::U16 => true,
        CType::U32 => true,
        CType::U64 => true,
        CType::F32 => true,
        CType::F64 => true,
        CType::Struct { fields, .. } => forall|i: int|
            0 <= i < fields@.len() ==> type_ok(#[trigger] fields@[i].1),
        CType::BitField { .. } => false,
        CType::Array { ty, .. } => type_ok(*ty),
        CType::Pointer { ty } => type_ok(*ty),
        CType::Const { ty } => type_ok(*ty),
        CType::FunctionPointer { return_ty, arguments } => type_ok(*return_ty) && forall|i: int|
            0 <= i < arguments@.len() ==> type_ok(#[trigger] arguments@[i]),
        _ => false,
    }
}

/// Whether rendering `t` is pure: no part of it registers a top-level
/// declaration, so the text is a function of the type alone.
pub open spec fn type_pure(t: CType) -> bool
    decreases t,
{
    match t {
        CType::Void => true,
        CType::I8 => true,
        CType::I16 => true,
        CType::I32 => true,
        CType::I64 => true,
        CType::U8 => true,
        CType::U16 => true,
        CType::U32 => true,
        CType::U64 => true,
        CType::F32 => true,
        CType::F64 => true,
        CType::Array { ty, .. } => type_pure(*ty),
        CType::Pointer { ty } => type_pure(*ty),
        CType::Const { ty } => type_pure(*ty),
        _ => false,
    }
}

/// The text of a pure type.
pub open spec fn type_text(t: CType) -> Seq<char>
    decreases t,
{
    match t {
        CType::Void => "void"@,
        CType::I8 => "signed char"@,
        CType::I16 => "signed short int"@,
        CType::I32 => "signed int"@,
        CType::I64 => "signed long int"@,
        CType::U8 => "unsigned char"@,
        CType::U16 => "unsigned short int"@,
        CType::U32 => "unsigned int"@,
        CType::U64 => "unsigned long int"@,
        CType::F32 => "float"@,
        CType::F64 => "double"@,
        CType::Array { ty, size } => type_text(*ty) + "["@ + (match size {
            Some(s) => dec_str(s as nat),
            None => Seq::empty(),
        }) + "]"@,
        CType::Pointer { ty } => type_text(*ty) + "*"@,
        CType::Const { ty } => type_text(*ty) + " const"@,
        _ => Seq::empty(),
    }
}

/// The body lines of a struct declaration whose fields are all pure:
/// `type name;` lines joined by newlines, in caller-given order.
pub open spec fn field_lines(fields: Seq<(String, CType)>) -> Seq<char> {
    join_texts(
        fields.map_values(|f: (String, CType)| type_text(f.1) + " "@ + f.0@ + ";"@),
        "\n"@,
    )
}

/// The registered declaration of a struct type named `nm`.
pub open spec fn struct_decl_text(nm: Seq<char>, repr: Option<Repr>, body: Seq<char>) -> Seq<char> {
    "struct "@ + nm + " "@ + (match repr {
        Some(r) => repr_text(r),
        None => Seq::empty(),
    }) + " {\n"@ + body + "\n};"@
}

/// The texts of the first `i` argument types, joined by `, `.
pub open spec fn arg_types_text(arguments: Seq<CType>, i: int) -> Seq<char>
    decreases i,
{
    if i <= 0 || i > arguments.len() {
        Seq::empty()
    } else {
        let one = type_text(arguments[i - 1]);
        if i == 1 {
            one
        } else {
            arg_types_text(arguments, i - 1) + ", "@ + one
        }
    }
}

/// The registered declaration of a function-pointer type named `nm`, for
/// pure return and argument types.
pub open spec fn fnptr_decl_text(nm: Seq<char>, ret: CType, arguments: Seq<CType>) -> Seq<char> {
    "typedef "@ + type_text(ret) + " (*"@ + nm + ")("@ + arg_types_text(
        arguments,
        arguments.len() as int,
    ) + ");"@
}

/// The shape of a successful type rendering, whatever inner registrations
/// happened: a fixed text for primitives and `void`, the inner text plus
/// the composite marker for arrays, pointers and const-qualified types, a
/// `struct` reference to a generated name, and a generated typedef name for
/// function pointers.
pub open spec fn type_shape(t: CType, txt: Seq<char>, module: Seq<char>) -> bool {
    match t {
        CType::Struct { .. } => exists|nm: Seq<char>|
            #[trigger] escape::is_temp_name(nm, module) && txt == "struct "@ + nm,
        CType::FunctionPointer { .. } => escape::is_temp_name(txt, module),
        CType::Array { size, .. } => exists|a: Seq<char>|
            txt == a + "["@ + (match size {
                Some(sz) => dec_str(sz as nat),
                None => Seq::empty(),
            }) + "]"@,
        CType::Pointer { .. } => exists|a: Seq<char>| txt == a + "*"@,
        CType::Const { .. } => exists|a: Seq<char>| txt == a + " const"@,
        CType::BitField { .. } => false,
        CType::UniformCallBack => false,
        CType::ModernCExtension(..) => false,
        CType::GLSLExtension(..) => false,
        CType::OpenCLExtension => false,
        CType::CudaExtension => false,
        _ => txt == type_text(t),
    }
}

/// The attribute of a struct type, `None` elsewhere.
pub open spec fn struct_repr(t: CType) -> Option<Repr> {
    match t {
        CType::Struct { repr, .. } => repr,
        _ => None,
    }
}

/// The fields of a struct type, empty elsewhere.
pub open spec fn struct_fields(t: CType) -> Seq<(String, CType)> {
    match t {
        CType::Struct { fields, .. } => fields@,
        _ => Seq::empty(),
    }
}

/// The return type of a function-pointer type, `Void` elsewhere.
pub open spec fn fp_return(t: CType) -> CType {
    match t {
        CType::FunctionPointer { return_ty, .. } => *return_ty,
        _ => CType::Void,
    }
}

/// The argument types of a function-pointer type, empty elsewhere.
pub open spec fn fp_arguments(t: CType) -> Seq<CType> {
    match t {
        CType::FunctionPointer { arguments, .. } => arguments@,
        _ => Seq::empty(),
    }
}

impl CType {
    /// Renders this type as C text.  Primitive, `void` and pointer-like
    /// types render to a fixed text and touch nothing; a struct or a
    /// function-pointer type registers exactly one fresh top-level
    /// declaration and returns a reference to its generated name;
    /// bit-fields and extension variants fail with an explicit signal.
    #[verifier::loop_isolation(false)]
    #[verifier::rlimit(100)]
    #[verifier::spinoff_prover]
    pub fn to_c(&self, dialect: CDialect, context: &mut Context) -> (r: Result<String, CError>)
        ensures
            extends_globals(*old(context), *final(context)),
            r is Ok <==> type_ok(*self),
            r is Err ==> r == Err::<String, CError>(CError::UnimplementedConstruct),
            r matches Ok(t) ==> type_shape(*self, t@, old(context).module@),
            type_pure(*self) ==> *final(context) == *old(context) && (r matches Ok(t) && t@
                == type_text(*self)),
            (self is Struct && (forall|i: int|
                0 <= i < struct_fields(*self).len() ==> type_pure(
                    #[trigger] struct_fields(*self)[i].1,
                ))) ==> exists|nm: Seq<char>|
                {
                    &&& #[trigger] crate::escape::is_temp_name(nm, old(context).module@)
                    &&& global_texts(*final(context)) == global_texts(*old(context)).push(
                        struct_decl_text(nm, struct_repr(*self), field_lines(struct_fields(*self))),
                    )
                    &&& final(context).current_source@ == old(context).current_source@
                    &&& (r matches Ok(t) && t@ == "struct "@ + nm)
                },
            (self is FunctionPointer && type_pure(fp_return(*self)) && (forall|i: int|
                0 <= i < fp_arguments(*self).len() ==> type_pure(
                    #[trigger] fp_arguments(*self)[i],
                ))) ==> exists|nm: Seq<char>|
                {
                    &&& #[trigger] crate::escape::is_temp_name(nm, old(context).module@)
                    &&& global_texts(*final(context)) == global_texts(*old(context)).push(
                        fnptr_decl_text(nm, fp_return(*self), fp_arguments(*self)),
                    )
                    &&& final(context).current_source@ == old(context).current_source@
                    &&& (r matches Ok(t) && t@ == nm)
                },
        decreases *self,
    {
        match self {
            CType::Void => Ok(text_string("void")),
            CType::I8 => Ok(text_string("signed char")),
            CType::I16 => Ok(text_string("signed short int")),
            CType::I32 => Ok(text_string("signed int")),
            CType::I64 => Ok(text_string("signed long int")),
            CType::U8 => Ok(text_string("unsigned char")),
            CType::U16 => Ok(text_string("unsigned short int")),
            CType::U32 => Ok(text_string("unsigned int")),
            CType::U64 => Ok(text_string("unsigned long int")),
            CType::F32 => Ok(text_string("float")),
            CType::F64 => Ok(text_string("double")),
            CType::Array { ty, size } => {
                let inner = match ty.to_c(dialect, context) {
                    Ok(t) => t,
                    Err(e) => {
                        return Err(e);
                    },
                };
                let ghost it = inner@;
                let mut out = inner;
                out.append("[");
                match size {
                    Some(s) => push_dec(&mut out, *s),
                    None => (),
                }
                out.append("]");
                proof {
                    assert(out@ =~= it + "["@ + (match size {
                        Some(sz) => dec_str((*sz) as nat),
                        None => Seq::<char>::empty(),
                    }) + "]"@);
                    if type_pure(*self) {
                        assert(out@ =~= type_text(*self));
                    }
                }
                Ok(out)
            },
            CType::Pointer { ty } => {
                let inner = match ty.to_c(dialect, context) {
                    Ok(t) => t,
                    Err(e) => {
                        return Err(e);
                    },
                };
                let ghost it = inner@;
                let mut out = inner;
                out.append("*");
                proof {
                    assert(out@ =~= it + "*"@);
                    if type_pure(*self) {
                        assert(out@ =~= type_text(*self));
                    }
                }
                Ok(out)
            },
            CType::Const { ty } => {
                let inner = match ty.to_c(dialect, context) {
                    Ok(t) => t,
                    Err(e) => {
                        return Err(e);
                    },
                };
                let ghost it = inner@;
                let mut out = inner;
                out.append(" const");
                proof {
                    assert(out@ =~= it + " const"@);
                    if type_pure(*self) {
                        assert(out@ =~= type_text(*self));
                    }
                }
                Ok(out)
            },
            CType::Struct { repr, fields } => {
                let ghost pre = *context;
                let mut lines: Vec<String> = Vec::new();
                let mut i: usize = 0;
                while i < fields.len()
                    invariant
                        0 <= i <= fields@.len(),
                        extends_globals(pre, *context),
                        forall|k: int| 0 <= k < i ==> type_ok(#[trigger] fields@[k].1),
                        lines@.len() == i,
                        (forall|k: int|
                            0 <= k < fields@.len() ==> type_pure(#[trigger] fields@[k].1)) ==> (
                        *context == pre && forall|k: int|
                            0 <= k < i ==> #[trigger] lines@[k]@ == type_text(fields@[k].1) + " "@
                                + fields@[k].0@ + ";"@),
                    decreases fields@.len() - i,
                {
                    let ghost mid = *context;
                    let field_text = match fields[i].1.to_c(dialect, context) {
                        Ok(t) => t,
                        Err(e) => {
                            proof {
                                assert(!type_ok(fields@[i as int].1));
                                assert(!type_ok(*self));
                                assert(struct_fields(*self) == fields@);
                                crate::c_cg::c_stmt::lemma_extends_trans(pre, mid, *context);
                            }
                            return Err(e);
                        },
                    };
                    let mut line = field_text;
                    line.append(" ");
                    line.append(fields[i].0.as_str());
                    line.append(";");
                    lines.push(line);
                    proof {
                        crate::c_cg::c_stmt::lemma_extends_trans(pre, mid, *context);
                    }
                    i = i + 1;
                }
                let inner = crate::c_cg::join_strings(&lines, "\n");
                let name = escape::get_temp_variable_name(context.module.as_str());
                let repr_str = match repr {
                    Some(rp) => rp.to_c(dialect, context),
                    None => String::new(),
                };
                let mut code = String::new();
                code.append("struct ");
                code.append(name.as_str());
                code.append(" ");
                code.append(repr_str.as_str());
                code.append(" {\n");
                code.append(inner.as_str());
                code.append("\n};");
                let ghost mid2 = *context;
                context.push_global(code);
                proof {
                    crate::c_cg::c_stmt::lemma_extends_trans(pre, mid2, *context);
                    assert(struct_fields(*self) == fields@);
                    assert(struct_repr(*self) == *repr);
                    if forall|k: int|
                        0 <= k < fields@.len() ==> type_pure(#[trigger] fields@[k].1) {
                        assert(crate::c_cg::texts_of(lines@) =~= fields@.map_values(
                            |f: (String, CType)| type_text(f.1) + " "@ + f.0@ + ";"@,
                        ));
                        assert(inner@ == field_lines(fields@));
                        assert(code@ =~= struct_decl_text(name@, *repr, field_lines(fields@)));
                        assert(global_texts(*context) =~= global_texts(pre).push(
                            struct_decl_text(name@, *repr, field_lines(fields@)),
                        ));
                    }
                }
                let mut out = String::new();
                out.append("struct ");
                out.append(name.as_str());
                proof {
                    if forall|k: int|
                        0 <= k < fields@.len() ==> type_pure(#[trigger] fields@[k].1) {
                        assert(out@ =~= "struct "@ + name@);
                    }
                }
                Ok(out)
            },
            CType::FunctionPointer { return_ty, arguments } => {
                let ghost pre = *context;
                let ret_text = match return_ty.to_c(dialect, context) {
                    Ok(t) => t,
                    Err(e) => {
                        proof {
                            assert(fp_return(*self) == *(*return_ty));
                        }
                        return Err(e);
                    },
                };
                let ghost mid = *context;
                let mut args_text = String::new();
                let mut i: usize = 0;
                while i < arguments.len()
                    invariant
                        0 <= i <= arguments@.len(),
                        extends_globals(pre, *context),
                        forall|k: int| 0 <= k < i ==> type_ok(#[trigger] arguments@[k]),
                        (type_pure(*(*return_ty)) && (forall|k: int|
                            0 <= k < arguments@.len() ==> type_pure(#[trigger] arguments@[k])))
                            ==> (*context == pre && args_text@ == arg_types_text(
                            arguments@,
                            i as int,
                        )),
                    decreases arguments@.len() - i,
                {
                    let ghost mid_i = *context;
                    let part = match arguments[i].to_c(dialect, context) {
                        Ok(t) => t,
                        Err(e) => {
                            proof {
                                assert(!type_ok(arguments@[i as int]));
                                assert(!type_ok(*self));
                                assert(fp_arguments(*self) == arguments@);
                                crate::c_cg::c_stmt::lemma_extends_trans(pre, mid_i, *context);
                            }
                            return Err(e);
                        },
                    };
                    if i > 0 {
                        args_text.append(", ");
                    }
                    args_text.append(part.as_str());
                    proof {
                        crate::c_cg::c_stmt::lemma_extends_trans(pre, mid_i, *context);
                        if type_pure(*(*return_ty)) && (forall|k: int|
                            0 <= k < arguments@.len() ==> type_pure(#[trigger] arguments@[k])) {
                            assert(args_text@ =~= arg_types_text(arguments@, i + 1));
                        }
                    }
                    i = i + 1;
                }
                let name = escape::get_temp_variable_name(context.module.as_str());
                let mut code = String::new();
                code.append("typedef ");
                code.append(ret_text.as_str());
                code.append(" (*");
                code.append(name.as_str());
                code.append(")(");
                code.append(args_text.as_str());
                code.append(");");
                let ghost mid2 = *context;
                context.push_global(code);
                proof {
                    crate::c_cg::c_stmt::lemma_extends_trans(pre, mid2, *context);
                    assert(fp_return(*self) == *(*return_ty));
                    assert(fp_arguments(*self) == arguments@);
                    if type_pure(*(*return_ty)) && (forall|k: int|
                        0 <= k < arguments@.len() ==> type_pure(#[trigger] arguments@[k])) {
                        assert(args_text@ == arg_types_text(arguments@, arguments@.len() as int));
                        assert(ret_text@ == type_text(*(*return_ty)));
                        assert(fnptr_decl_text(name@, *(*return_ty), arguments@) == "typedef "@
                            + type_text(*(*return_ty)) + " (*"@ + name@ + ")("@ + arg_types_text(
                            arguments@,
                            arguments@.len() as int,
                        ) + ");"@);
                        assert(code@ == "typedef "@ + ret_text@ + " (*"@ + name@ + ")("@
                            + args_text@ + ");"@);
                        assert(code@ =~= fnptr_decl_text(name@, *(*return_ty), arguments@));
                        assert(global_texts(*context) =~= global_texts(pre).push(
                            fnptr_decl_text(name@, *(*return_ty), arguments@),
                        ));
                    }
                }
                Ok(name)
            },
            CType::BitField { .. } => Err(CError::UnimplementedConstruct),
            CType::UniformCallBack => Err(CError::UnimplementedConstruct),
            CType::ModernCExtension(..) => Err(CError::UnimplementedConstruct),
            CType::GLSLExtension(..) => Err(CError::UnimplementedConstruct),
            CType::OpenCLExtension => Err(CError::UnimplementedConstruct),
            CType::CudaExtension => Err(CError::UnimplementedConstruct),
        }
    }
}

impl ToC for CType {
    fn to_c(&self, dialect: CDialect, context: &mut Context) -> Result<String, CError> {
        CType::to_c(self, dialect, context)
    }
}

/// A fresh `String` with the text of `s`.
fn text_string(s: &str) -> (r: String)
    ensures
        r@ == s@,
{
    let mut out = String::new();
    out.append(s);
    out
}

} // verus!
