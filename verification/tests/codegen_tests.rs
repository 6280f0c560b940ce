use c_emit::c_cg::c_arch::Arch;
use c_emit::c_cg::c_stmt::Context;
use c_emit::c_cg::c_type::{CType, Repr};
use c_emit::c_cg::c_value::{CLiteral, CValue, FloatSuffix, IntegerSuffix};
use c_emit::c_cg::{CDialect, CError};

fn ctx() -> Context {
    Context::standard("m".to_string())
}

fn kernel_ctx() -> Context {
    Context {
        globals: Vec::new(),
        module: "m".to_string(),
        dialect: CDialect::Kernel,
        variables: Vec::new(),
        current_source: String::new(),
    }
}

fn int_lit(v: usize) -> CValue {
    CValue::Literal(CLiteral::Int(v, IntegerSuffix::NoSuffix))
}

#[test]
fn integer_literal_suffix_gated_by_dialect() {
    let c = ctx();
    let l = CLiteral::Int(5, IntegerSuffix::U64);
    assert_eq!(l.to_c(CDialect::Standard, &c), "5ul");
    assert_eq!(l.to_c(CDialect::Kernel, &c), "5");
    assert_eq!(l.to_c(CDialect::Parallel, &c), "5");
    assert_eq!(CLiteral::Int(7, IntegerSuffix::U32).to_c(CDialect::Standard, &c), "7u");
    assert_eq!(CLiteral::Int(7, IntegerSuffix::I64).to_c(CDialect::Standard, &c), "7l");
    assert_eq!(
        CLiteral::Float("2.5".to_string(), FloatSuffix::F32).to_c(CDialect::Standard, &c),
        "2.5f"
    );
    assert_eq!(
        CLiteral::Float("2.5".to_string(), FloatSuffix::F32).to_c(CDialect::Kernel, &c),
        "2.5"
    );
    assert_eq!(CLiteral::CChar('x').to_c(CDialect::Standard, &c), "'x'");
    assert_eq!(CLiteral::CString("hi".to_string()).to_c(CDialect::Standard, &c), "\"hi\"");
}

#[test]
fn primitive_and_composite_types_render() {
    let mut c = ctx();
    assert_eq!(CType::I32.to_c(CDialect::Standard, &mut c), Ok("signed int".to_string()));
    assert_eq!(CType::U8.to_c(CDialect::Standard, &mut c), Ok("unsigned char".to_string()));
    let p = CType::Pointer { ty: Box::new(CType::I32) };
    assert_eq!(p.to_c(CDialect::Standard, &mut c), Ok("signed int*".to_string()));
    let a = CType::Array { ty: Box::new(CType::U8), size: Some(4) };
    assert_eq!(a.to_c(CDialect::Standard, &mut c), Ok("unsigned char[4]".to_string()));
    let q = CType::Const { ty: Box::new(CType::F64) };
    assert_eq!(q.to_c(CDialect::Standard, &mut c), Ok("double const".to_string()));
    assert!(c.globals.is_empty());
}

#[test]
fn unrenderable_types_fail_explicitly() {
    let mut c = ctx();
    assert_eq!(CType::Void.to_c(CDialect::Standard, &mut c), Ok("void".to_string()));
    assert_eq!(
        CType::OpenCLExtension.to_c(CDialect::Standard, &mut c),
        Err(CError::UnimplementedConstruct)
    );
    assert_eq!(
        CType::BitField { fields: Vec::new() }.to_c(CDialect::Standard, &mut c),
        Err(CError::UnimplementedConstruct)
    );
    assert!(c.globals.is_empty());
}

#[test]
fn struct_type_registers_one_declaration() {
    let mut c = ctx();
    let s = CType::Struct {
        repr: Some(Repr::Packed),
        fields: vec![("x".to_string(), CType::I32), ("y".to_string(), CType::U8)],
    };
    let r = s.to_c(CDialect::Standard, &mut c).unwrap();
    assert!(r.starts_with("struct "));
    assert_eq!(c.globals.len(), 1);
    let decl = &c.globals[0];
    assert!(decl.starts_with("struct "));
    assert!(decl.contains("__attribute__ ((packed))"));
    assert!(decl.contains("signed int x;"));
    assert!(decl.contains("unsigned char y;"));
    // a second occurrence registers anew: no deduplication
    let s2 = CType::Struct {
        repr: None,
        fields: vec![("x".to_string(), CType::I32), ("y".to_string(), CType::U8)],
    };
    let r2 = s2.to_c(CDialect::Standard, &mut c).unwrap();
    assert_eq!(c.globals.len(), 2);
    assert_ne!(r, r2);
}

#[test]
fn function_pointer_registers_typedef() {
    let mut c = ctx();
    let f = CType::FunctionPointer {
        return_ty: Box::new(CType::I32),
        arguments: vec![CType::U8, CType::F32],
    };
    let name = f.to_c(CDialect::Standard, &mut c).unwrap();
    assert_eq!(c.globals.len(), 1);
    let decl = &c.globals[0];
    assert_eq!(
        decl,
        &format!("typedef signed int (*{})(unsigned char, float);", name)
    );
}

#[test]
fn repr_renders_alignment() {
    let c = ctx();
    assert_eq!(Repr::Packed.to_c(CDialect::Standard, &c), "__attribute__ ((packed))");
    assert_eq!(Repr::Aligned(8).to_c(CDialect::Standard, &c), "__attribute__ ((aligned(8)))");
    assert_eq!(
        Repr::PackedAligned(16).to_c(CDialect::Standard, &c),
        "__attribute__ ((packed, aligned(16)))"
    );
}

#[test]
fn arch_predicates() {
    let c = ctx();
    assert_eq!(
        Arch::WindowsX86.to_c(CDialect::Standard, &c),
        "defined(_WIN32) && defined(_M_IX86) || defined(__i386__)"
    );
    assert_eq!(
        Arch::EmscriptenWasm32.to_c(CDialect::Standard, &c),
        "defined(__EMSCRIPTEN__) && defined(__wasm32__)"
    );
}

#[test]
fn values_render_fully_parenthesized() {
    let mut c = ctx();
    let v = CValue::BinOp(
        "+".to_string(),
        Box::new(CValue::Variable("a".to_string())),
        Box::new(CValue::Variable("b".to_string())),
    );
    assert_eq!(v.to_c(CDialect::Standard, &mut c), Ok("(m_MM_a + m_MM_b)".to_string()));
    let d = CValue::Dereference(Box::new(CValue::Variable("p".to_string())));
    assert_eq!(d.to_c(CDialect::Standard, &mut c), Ok("(*m_MM_p)".to_string()));
    let r = CValue::Reference(Box::new(CValue::Variable("p".to_string())));
    assert_eq!(r.to_c(CDialect::Standard, &mut c), Ok("(&m_MM_p)".to_string()));
    let ma = CValue::MemberAccess(Box::new(CValue::Variable("s".to_string())), "f".to_string());
    assert_eq!(ma.to_c(CDialect::Standard, &mut c), Ok("(m_MM_s.f)".to_string()));
    let ix = CValue::IndexAccess(Box::new(CValue::Variable("s".to_string())), Box::new(int_lit(3)));
    assert_eq!(ix.to_c(CDialect::Standard, &mut c), Ok("(m_MM_s[3])".to_string()));
    let call = CValue::FunctionCall(
        Box::new(CValue::Variable("f".to_string())),
        vec![int_lit(1), int_lit(2)],
    );
    assert_eq!(call.to_c(CDialect::Standard, &mut c), Ok("(m_MM_f(1, 2))".to_string()));
    let pre = CValue::PrefixOp("!".to_string(), Box::new(CValue::Variable("x".to_string())));
    assert_eq!(pre.to_c(CDialect::Standard, &mut c), Ok("(!m_MM_x)".to_string()));
    let post = CValue::PostfixOp("++".to_string(), Box::new(CValue::Variable("x".to_string())));
    assert_eq!(post.to_c(CDialect::Standard, &mut c), Ok("(m_MM_x++)".to_string()));
}

#[test]
fn struct_literal_keeps_caller_order() {
    let mut c = ctx();
    let v = CValue::Struct(vec![("b".to_string(), int_lit(2)), ("a".to_string(), int_lit(1))]);
    assert_eq!(v.to_c(CDialect::Standard, &mut c), Ok("{ .b = 2, .a = 1 }".to_string()));
}

#[test]
fn union_literal_gated_by_dialect() {
    let mut k = kernel_ctx();
    let v = CValue::Union(vec![("a".to_string(), int_lit(1))]);
    assert_eq!(v.to_c(CDialect::Kernel, &mut k), Err(CError::UnsupportedDialectFeature));
    assert_eq!(k.current_source, "");
    let mut c = ctx();
    let v2 = CValue::Union(vec![("a".to_string(), int_lit(1))]);
    assert_eq!(v2.to_c(CDialect::Standard, &mut c), Ok("{ .a = 1 }".to_string()));
}

#[test]
fn autodiff_must_fail() {
    let mut c = ctx();
    let v = CValue::AutoDiff("grad".to_string(), vec![int_lit(1)]);
    assert_eq!(v.to_c(CDialect::Standard, &mut c), Err(CError::UnimplementedConstruct));
}

#[test]
fn array_literal_emits_temporary() {
    let mut c = ctx();
    let v = CValue::Array(
        CType::Array { ty: Box::new(CType::I32), size: Some(2) },
        vec![int_lit(1), int_lit(2)],
    );
    let name = v.to_c(CDialect::Standard, &mut c).unwrap();
    assert!(c.current_source.starts_with("signed int "));
    assert!(c.current_source.contains(&name));
    assert!(c.current_source.ends_with("[2] = { 1, 2 };"));
}

#[test]
fn declare_once_then_assign() {
    let mut c = ctx();
    c.set(CType::I32, "x".to_string(), int_lit(1)).unwrap();
    c.set(CType::I32, "x".to_string(), int_lit(2)).unwrap();
    assert_eq!(c.current_source, "signed int m_MM_x = 1;\nm_MM_x = 2;\n");
    assert_eq!(c.variables.len(), 1);
}

#[test]
fn nested_scope_forgets_declarations() {
    let mut c = ctx();
    c.set(CType::I32, "x".to_string(), int_lit(1)).unwrap();
    let ret = c
        .block(&CType::I32, |mut child: Context, res: String| {
            child.set(CType::I32, "y".to_string(), int_lit(5)).unwrap();
            child.current_source.push_str(&format!("{} = m_MM_y;\n", res));
            child
        })
        .unwrap();
    // the parent does not know the child's `y`: declaring it anew declares again
    assert_eq!(c.variables.len(), 1);
    c.set(CType::I32, "y".to_string(), int_lit(7)).unwrap();
    assert_eq!(c.variables.len(), 2);
    let src = &c.current_source;
    assert!(src.contains("{\nsigned int m_MM_y = 5;\n"));
    assert!(src.contains(&format!("{} = m_MM_y;", ret)));
    // the declaration after the block is a fresh one
    assert!(src.ends_with("signed int m_MM_y = 7;\n"));
}

fn branch_one(mut c: Context, res: String) -> Context {
    c.current_source.push_str(&format!("{} = 1;\n", res));
    c
}

fn branch_two(mut c: Context, res: String) -> Context {
    c.current_source.push_str(&format!("{} = 2;\n", res));
    c
}

fn branch_other(mut c: Context, res: String) -> Context {
    c.current_source.push_str(&format!("{} = 0;\n", res));
    c
}

#[test]
fn cond_renders_if_else_chain() {
    let mut c = ctx();
    let conds = vec![CValue::Variable("p".to_string()), CValue::Variable("q".to_string())];
    let builders: Vec<fn(Context, String) -> Context> = vec![branch_one, branch_two];
    c.cond(&CType::I32, conds, builders, branch_other).unwrap();
    let src = &c.current_source;
    assert!(src.contains("if(m_MM_p) {\n"));
    assert!(src.contains("} else if(m_MM_q) {\n"));
    assert!(src.contains("} else {\n"));
    assert!(src.contains("= 1;"));
    assert!(src.contains("= 2;"));
    assert!(src.contains("= 0;"));
}

#[test]
fn cond_with_no_branch_is_malformed() {
    let mut c = ctx();
    let builders: Vec<fn(Context, String) -> Context> = Vec::new();
    let r = c.cond(&CType::I32, Vec::new(), builders, branch_other);
    assert_eq!(r, Err(CError::MalformedConditional));
    assert_eq!(c.current_source, "");
    let mismatched: Vec<fn(Context, String) -> Context> = vec![branch_one];
    let r2 = c.cond(
        &CType::I32,
        vec![CValue::Variable("p".to_string()), CValue::Variable("q".to_string())],
        mismatched,
        branch_other,
    );
    assert_eq!(r2, Err(CError::MalformedConditional));
    assert_eq!(c.current_source, "");
}

#[test]
fn for_loop_renders_all_clauses() {
    let mut c = ctx();
    let cond = CValue::BinOp(
        "<".to_string(),
        Box::new(CValue::Variable("i".to_string())),
        Box::new(int_lit(3)),
    );
    let step = CValue::PostfixOp("++".to_string(), Box::new(CValue::Variable("i".to_string())));
    c.for_loop(
        Some((CType::I32, "i".to_string(), int_lit(0))),
        Some(cond),
        Some(step),
        |mut child: Context| {
            child.local_inline_c("work();");
            (child, "i".to_string())
        },
    )
    .unwrap();
    assert_eq!(
        c.current_source,
        "for(signed int m_MM_i = 0;(m_MM_i < 3);(m_MM_i++)) {do {work();} while(0);\n}"
    );
}

#[test]
fn for_loop_without_condition_is_always_true() {
    let mut c = ctx();
    c.for_loop(None, None, None, |child: Context| (child, "x".to_string())).unwrap();
    assert_eq!(c.current_source, "for(;;) {}");
}

#[test]
fn def_hoists_function_to_file_scope() {
    let mut c = ctx();
    c.def(
        "add".to_string(),
        CType::I32,
        vec![(CType::I32, "a".to_string()), (CType::I32, "b".to_string())],
        |mut child: Context| {
            child
                .set(
                    CType::I32,
                    "r".to_string(),
                    CValue::BinOp(
                        "+".to_string(),
                        Box::new(CValue::Variable("a".to_string())),
                        Box::new(CValue::Variable("b".to_string())),
                    ),
                )
                .unwrap();
            child
        },
    )
    .unwrap();
    assert_eq!(c.current_source, "");
    assert_eq!(c.globals.len(), 1);
    assert_eq!(
        c.globals[0],
        "signed int m_MM_add(signed int m_MM_a, signed int m_MM_b) \
         {signed int m_MM_r = (m_MM_a + m_MM_b);\n}"
    );
}

#[test]
fn inline_asm_gated_by_dialect() {
    let mut k = kernel_ctx();
    let r = k.inline_asm(
        Arch::PosixX86_64,
        true,
        vec!["nop".to_string()],
        Vec::new(),
        Vec::new(),
        Vec::new(),
        Vec::new(),
    );
    assert_eq!(r, Err(CError::UnsupportedDialectFeature));
    assert_eq!(k.current_source, "");
    let mut c = ctx();
    c.inline_asm(
        Arch::PosixX86_64,
        true,
        vec!["nop".to_string()],
        vec!["in0".to_string()],
        vec!["out0".to_string()],
        Vec::new(),
        vec!["memory".to_string()],
    )
    .unwrap();
    let src = &c.current_source;
    assert!(src.starts_with("#if defined(__unix__) && defined(__x86_64__)\n"));
    assert!(src.contains("__asm__ volatile"));
    assert!(src.contains("\"nop\""));
    assert!(src.contains(" \"=r\"(out0)"));
    assert!(src.contains(" \"r\"(in0)"));
    assert!(src.contains(" \"memory\""));
    assert!(src.ends_with(")\n#endif\n"));
}

#[test]
fn raw_pragma_gated_and_interpolated() {
    let mut k = kernel_ctx();
    assert_eq!(
        k.raw_pragma("omp parallel".to_string()),
        Err(CError::UnsupportedDialectFeature)
    );
    assert_eq!(k.current_source, "");
    let mut c = ctx();
    c.raw_pragma("omp parallel shared({acc})".to_string()).unwrap();
    assert_eq!(c.current_source, "#pragma omp parallel shared(m_MM_acc)\n");
}

#[test]
fn inline_c_escape_hatches() {
    let mut c = ctx();
    c.global_inline_c("int marker;".to_string());
    assert_eq!(c.globals, vec!["int marker;".to_string()]);
    c.global_inline_c("int {counter};".to_string());
    assert_eq!(c.globals[1], "int m_MM_counter;");
    c.local_inline_c("abort();");
    assert_eq!(c.current_source, "do {abort();} while(0);\n");
}

#[test]
fn void_functions_render() {
    let mut c = ctx();
    c.def("run".to_string(), CType::Void, Vec::new(), |child: Context| child).unwrap();
    assert_eq!(c.globals[0], "void m_MM_run() {}");
}

#[test]
fn decl_tmp_declares_uninitialized_temporary() {
    let mut c = ctx();
    let name = c.decl_tmp(&CType::U16).unwrap();
    assert!(name.starts_with("m_MM__X5F_tmp_X5F_"));
    assert_eq!(c.current_source, format!("unsigned short int {};\n", name));
    assert!(c.variables.is_empty());
}
