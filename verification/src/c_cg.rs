//! Emission of C source text: architecture predicates, types, values, and
//! the statement/scope engine.

pub mod c_arch;
pub mod c_stmt;
pub mod c_type;
pub mod c_value;

use crate::c_cg::c_stmt::Context;
use vstd::prelude::*;

verus! {

/// The rendering mode threaded through every render call, restricting which
/// constructs are legal.
#[derive(Debug, Clone, Copy, PartialEq, Eq, Structural)]
pub enum CDialect {
    /// GPU-kernel C: glsl, opencl/cuda device code and the like.
    Kernel,
    /// Directive-parallel C: openmp, openacc, mpi hosts.
    Parallel,
    /// Standard C11-memory-model C.
    Standard,
}

/// The failures a render call can signal.  Every failure is a hard stop of
/// the whole generation pass; there is no partial-output mode.
#[derive(Debug, Clone, Copy, PartialEq, Eq, Structural)]
pub enum CError {
    /// Inline assembly, a raw pragma, or a union literal outside the
    /// standard dialect.
    UnsupportedDialectFeature,
    /// A multi-way conditional with an empty or mismatched condition and
    /// branch list.
    MalformedConditional,
    /// A declared-but-unrendered extension variant with no renderer.
    UnimplementedConstruct,
}

/// Rendering to C text.  Each implementation forwards to an inherent method
/// of the same name that carries the full contract.
pub trait ToC {
    fn to_c(&self, dialect: CDialect, context: &mut Context) -> Result<String, CError>;
}

/// The decimal digit character for a value in 0..10.
pub open spec fn dec_digit_char(n: int) -> char
    recommends
        0 <= n < 10,
{
    (('0' as int) + n) as char
}

/// The decimal spelling of `n`, without leading zeros (`0` spells `"0"`).
pub open spec fn dec_str(n: nat) -> Seq<char>
    decreases n,
{
    if n < 10 {
        seq![dec_digit_char(n as int)]
    } else {
        dec_str(n / 10).push(dec_digit_char((n % 10) as int))
    }
}

/// Appends the decimal spelling of `n` to `out`.
pub fn push_dec(out: &mut String, n: usize)
    ensures
        final(out)@ == old(out)@ + dec_str(n as nat),
    decreases n,
{
    if n >= 10 {
        push_dec(out, n / 10);
    }
    let d: usize = n % 10;
    let c: char = (48u8 + (d as u8)) as char;
    assert(c == dec_digit_char(d as int));
    crate::escape::push_char(out, c);
    proof {
        if n < 10 {
            assert(dec_str(n as nat) == seq![dec_digit_char(n as int)]);
            assert(final(out)@ =~= old(out)@ + dec_str(n as nat));
        } else {
            assert(dec_str(n as nat) == dec_str((n / 10) as nat).push(
                dec_digit_char((n % 10) as int),
            ));
            assert(final(out)@ =~= old(out)@ + dec_str(n as nat));
        }
    }
}

/// The concatenation of three text fragments.
pub fn cat3(a: &str, b: &str, c: &str) -> (r: String)
    ensures
        r@ == a@ + b@ + c@,
{
    let mut out = String::new();
    out.append(a);
    out.append(b);
    out.append(c);
    proof {
        assert(out@ =~= a@ + b@ + c@);
    }
    out
}

/// The concatenation of four text fragments.
pub fn cat4(a: &str, b: &str, c: &str, d: &str) -> (r: String)
    ensures
        r@ == a@ + b@ + c@ + d@,
{
    let mut out = String::new();
    out.append(a);
    out.append(b);
    out.append(c);
    out.append(d);
    proof {
        assert(out@ =~= a@ + b@ + c@ + d@);
    }
    out
}

/// The concatenation of five text fragments.
pub fn cat5(a: &str, b: &str, c: &str, d: &str, e: &str) -> (r: String)
    ensures
        r@ == a@ + b@ + c@ + d@ + e@,
{
    let mut out = String::new();
    out.append(a);
    out.append(b);
    out.append(c);
    out.append(d);
    out.append(e);
    proof {
        assert(out@ =~= a@ + b@ + c@ + d@ + e@);
    }
    out
}

/// The concatenation of seven text fragments.
pub fn cat7(a: &str, b: &str, c: &str, d: &str, e: &str, f: &str, g: &str) -> (r: String)
    ensures
        r@ == a@ + b@ + c@ + d@ + e@ + f@ + g@,
{
    let mut out = String::new();
    out.append(a);
    out.append(b);
    out.append(c);
    out.append(d);
    out.append(e);
    out.append(f);
    out.append(g);
    proof {
        assert(out@ =~= a@ + b@ + c@ + d@ + e@ + f@ + g@);
    }
    out
}

/// The elements of `elems` joined by `sep`.
pub open spec fn join_texts(elems: Seq<Seq<char>>, sep: Seq<char>) -> Seq<char>
    decreases elems.len(),
{
    if elems.len() == 0 {
        Seq::empty()
    } else if elems.len() == 1 {
        elems[0]
    } else {
        elems[0] + sep + join_texts(elems.drop_first(), sep)
    }
}

/// Joining one more element appends a separator and the element.
pub proof fn lemma_join_snoc(elems: Seq<Seq<char>>, sep: Seq<char>, x: Seq<char>)
    ensures
        join_texts(elems.push(x), sep) == if elems.len() == 0 {
            x
        } else {
            join_texts(elems, sep) + sep + x
        },
    decreases elems.len(),
{
    let p = elems.push(x);
    if elems.len() == 0 {
        assert(p.len() == 1);
        assert(join_texts(p, sep) == p[0]);
        assert(p[0] == x);
    } else {
        assert(p[0] == elems[0]);
        assert(p.drop_first() =~= elems.drop_first().push(x));
        lemma_join_snoc(elems.drop_first(), sep, x);
        if elems.len() == 1 {
            assert(elems.drop_first().len() == 0);
            assert(join_texts(p, sep) == elems[0] + sep + x);
            assert(join_texts(elems, sep) == elems[0]);
            assert(join_texts(p, sep) =~= join_texts(elems, sep) + sep + x);
        } else {
            assert(join_texts(p, sep) == elems[0] + sep + (join_texts(elems.drop_first(), sep)
                + sep + x));
            assert(join_texts(p, sep) =~= join_texts(elems, sep) + sep + x);
        }
    }
}

/// The views of a vector of strings.
pub open spec fn texts_of(v: Seq<String>) -> Seq<Seq<char>> {
    v.map_values(|s: String| s@)
}

/// Joins the strings of `v` with the separator `sep`.
pub fn join_strings(v: &Vec<String>, sep: &str) -> (r: String)
    ensures
        r@ == join_texts(texts_of(v@), sep@),
{
    let mut out = String::new();
    let mut i: usize = 0;
    proof {
        assert(texts_of(v@).take(0) =~= Seq::<Seq<char>>::empty());
    }
    while i < v.len()
        invariant
            0 <= i <= v@.len(),
            out@ == join_texts(texts_of(v@).take(i as int), sep@),
        decreases v@.len() - i,
    {
        if i > 0 {
            out.append(sep);
        }
        out.append(v[i].as_str());
        proof {
            let ts = texts_of(v@);
            assert(ts[i as int] == v@[i as int]@);
            assert(ts.take(i + 1) =~= ts.take(i as int).push(ts[i as int]));
            lemma_join_snoc(ts.take(i as int), sep@, ts[i as int]);
            assert(ts.take(i as int).len() == i);
            assert(out@ =~= join_texts(ts.take(i + 1), sep@));
        }
        i = i + 1;
    }
    proof {
        assert(texts_of(v@).take(v@.len() as int) =~= texts_of(v@));
    }
    out
}

} // verus!
