use crate::expr::{Expr, ExprView};
use crate::output_chunk::{ChunkView, OutputChunk};
use std::sync::Arc;
use vstd::prelude::*;

verus! {

/// The decimal digit character for `d`.
pub open spec fn digit_char(d: nat) -> char {
    (d + 48) as char
}

/// The decimal digits of `m`, without leading zeros.
pub open spec fn decimal_digits(m: nat) -> Seq<char>
    decreases m,
{
    if m < 10 {
        seq![digit_char(m)]
    } else {
        decimal_digits(m / 10).push(digit_char(m % 10))
    }
}

/// The decimal text of `n`, as `Display` writes integers: a minus sign for negative numbers,
/// then the digits of the magnitude.
pub open spec fn decimal_text(n: int) -> Seq<char> {
    if n < 0 {
        seq!['-'] + decimal_digits((-n) as nat)
    } else {
        decimal_digits(n as nat)
    }
}

/// The WGSL text of a floating-point constant, given the text `Display` writes for its value:
/// a point is appended where there is none, so that the constant reads as a float.
pub open spec fn float_text(t: Seq<char>) -> Seq<char> {
    if t.contains('.') {
        t
    } else {
        t.push('.')
    }
}

/// Every expression of the sequence can be turned into output code.
pub open spec fn all_generatable(s: Seq<ExprView>) -> bool
    decreases s,
{
    if s.len() == 0 {
        true
    } else {
        all_generatable(s.drop_last()) && generatable(s.last())
    }
}

/// The expression can be turned into output code: it is built of constants, local variable
/// references, attribute accesses and function calls only.
pub open spec fn generatable(e: ExprView) -> bool
    decreases e,
{
    match e {
        ExprView::ConstI32(_) | ExprView::ConstF32(_) | ExprView::ConstVec2(..)
        | ExprView::ConstVec3(..) | ExprView::ConstVec4(..) | ExprView::ConstColor(..)
        | ExprView::RefLocal(..) => true,
        ExprView::GetAttr(_, base, _) => generatable(*base),
        ExprView::FnCall(_, _, args) => all_generatable(args),
        _ => false,
    }
}

/// The output code of each expression of the sequence.
pub open spec fn generated_all(s: Seq<ExprView>) -> Seq<ChunkView>
    decreases s,
{
    if s.len() == 0 {
        Seq::empty()
    } else {
        generated_all(s.drop_last()).push(generated(s.last()))
    }
}

/// The output code of an expression.
pub open spec fn generated(e: ExprView) -> ChunkView
    decreases e,
{
    match e {
        ExprView::ConstI32(n) => ChunkView::Literal(decimal_text(n as int)),
        ExprView::ConstF32(t) => ChunkView::Literal(float_text(t)),
        ExprView::ConstVec2(x, y) => ChunkView::FCall {
            func: "vec2f"@,
            args: seq![ChunkView::Literal(float_text(x)), ChunkView::Literal(float_text(y))],
        },
        ExprView::ConstVec3(x, y, z) => ChunkView::FCall {
            func: "vec3f"@,
            args: seq![
                ChunkView::Literal(float_text(x)),
                ChunkView::Literal(float_text(y)),
                ChunkView::Literal(float_text(z)),
            ],
        },
        ExprView::ConstVec4(x, y, z, w) => ChunkView::FCall {
            func: "vec4f"@,
            args: seq![
                ChunkView::Literal(float_text(x)),
                ChunkView::Literal(float_text(y)),
                ChunkView::Literal(float_text(z)),
                ChunkView::Literal(float_text(w)),
            ],
        },
        ExprView::ConstColor(r, g, b, a) => ChunkView::FCall {
            func: "vec4f"@,
            args: seq![
                ChunkView::Literal(float_text(r)),
                ChunkView::Literal(float_text(g)),
                ChunkView::Literal(float_text(b)),
                ChunkView::Literal(float_text(a)),
            ],
        },
        ExprView::RefLocal(_, name) => ChunkView::Literal(name),
        ExprView::GetAttr(_, base, field) => ChunkView::Infix {
            oper: "."@,
            precedence: 1,
            args: seq![generated(*base), ChunkView::Str(field)],
        },
        ExprView::FnCall(_, f, args) => ChunkView::FCall { func: f, args: generated_all(args) },
        _ => ChunkView::Literal(Seq::empty()),
    }
}

/// The text of one decimal digit.
fn digit_str(d: u32) -> (res: &'static str)
    requires
        d < 10,
    ensures
        res@ == seq![digit_char(d as nat)],
{
    proof {
        reveal_strlit("0");
        reveal_strlit("1");
        reveal_strlit("2");
        reveal_strlit("3");
        reveal_strlit("4");
        reveal_strlit("5");
        reveal_strlit("6");
        reveal_strlit("7");
        reveal_strlit("8");
        reveal_strlit("9");
    }
    let res = match d {
        0 => "0",
        1 => "1",
        2 => "2",
        3 => "3",
        4 => "4",
        5 => "5",
        6 => "6",
        7 => "7",
        8 => "8",
        _ => "9",
    };
    proof {
        assert(res@ =~= seq![digit_char(d as nat)]);
    }
    res
}

/// Writes the decimal digits of `m`.
fn write_digits(m: u32, out: &mut String)
    ensures
        final(out)@ == old(out)@ + decimal_digits(m as nat),
    decreases m,
{
    if m >= 10 {
        write_digits(m / 10, out);
    }
    out.append(digit_str(m % 10));
    proof {
        assert(out@ =~= old(out)@ + decimal_digits(m as nat));
    }
}

/// The decimal text of an integer, as `Display` writes it.
pub fn i32_to_decimal(n: i32) -> (res: String)
    ensures
        res@ == decimal_text(n as int),
{
    let mut out = String::new();
    if n < 0 {
        proof {
            reveal_strlit("-");
        }
        out.append("-");
        let m: u32 = (0i64 - (n as i64)) as u32;
        write_digits(m, &mut out);
    } else {
        let m: u32 = n as u32;
        write_digits(m, &mut out);
    }
    proof {
        assert(out@ =~= decimal_text(n as int));
    }
    out
}

/// Whether the text holds a point.
fn contains_point(s: &str) -> (res: bool)
    ensures
        res == s@.contains('.'),
{
    let n = s.unicode_len();
    let mut i: usize = 0;
    while i < n
        invariant
            i <= n,
            n == s@.len(),
            forall|k: int| 0 <= k < i ==> s@[k] != '.',
        decreases n - i,
    {
        if s.get_char(i) == '.' {
            return true;
        }
        i += 1;
    }
    false
}

/// The output code of a floating-point constant, given the text of its value.
fn float_chunk(text: &String) -> (res: OutputChunk)
    ensures
        res@ == ChunkView::Literal(float_text(text@)),
{
    if contains_point(text.as_str()) {
        OutputChunk::Literal(text.clone())
    } else {
        proof {
            reveal_strlit(".");
        }
        let mut s = text.clone();
        s.append(".");
        proof {
            assert(s@ =~= text@.push('.'));
        }
        OutputChunk::Literal(s)
    }
}

/// A function call chunk whose arguments are the given chunks.
fn fcall(func: &str, args: Vec<OutputChunk>) -> (res: OutputChunk)
    ensures
        res@ == (ChunkView::FCall { func: func@, args: crate::output_chunk::chunks_view(args@) }),
{
    OutputChunk::FCall { func: String::from_str(func), args }
}

/// Appends a chunk to a vector of chunks.
fn push_chunk(v: &mut Vec<OutputChunk>, c: OutputChunk)
    ensures
        crate::output_chunk::chunks_view(final(v)@) == crate::output_chunk::chunks_view(old(v)@).push(c@),
{
    proof {
        crate::output_chunk::lemma_chunks_view_push(v@, c);
    }
    v.push(c);
}

/// A function call with floating-point constants as its arguments.
fn float_call(func: &str, texts: &Vec<&String>) -> (res: OutputChunk)
    ensures
        res@ == (ChunkView::FCall {
            func: func@,
            args: Seq::new(texts.len() as nat, |i: int| ChunkView::Literal(float_text(texts@[i]@))),
        }),
{
    let mut args: Vec<OutputChunk> = Vec::new();
    let mut i: usize = 0;
    proof {
        assert(crate::output_chunk::chunks_view(args@) =~= Seq::<ChunkView>::empty());
    }
    while i < texts.len()
        invariant
            i <= texts.len(),
            crate::output_chunk::chunks_view(args@) =~= Seq::new(
                i as nat,
                |k: int| ChunkView::Literal(float_text(texts@[k]@)),
            ),
        decreases texts.len() - i,
    {
        let c = float_chunk(texts[i]);
        push_chunk(&mut args, c);
        i += 1;
    }
    fcall(func, args)
}

/// Turns an expression into output code.
pub fn codegen(expr: &Expr) -> (res: OutputChunk)
    requires
        generatable(expr@),
    ensures
        res@ == generated(expr@),
    decreases expr@,
{
    proof {
        reveal_strlit("vec2f");
        reveal_strlit("vec3f");
        reveal_strlit("vec4f");
        reveal_strlit(".");
    }
    match expr {
        Expr::ConstI32(n) => OutputChunk::Literal(i32_to_decimal(*n)),
        Expr::ConstF32(f) => float_chunk(f),
        Expr::ConstVec2(x, y) => {
            let texts = vec![x, y];
            let res = float_call("vec2f", &texts);
            proof {
                assert(texts@ == seq![x, y]);
                let ghost expected = Seq::new(texts.len() as nat, |i: int| ChunkView::Literal(float_text(texts@[i]@)));
                assert(expected =~= seq![ChunkView::Literal(float_text(x@)), ChunkView::Literal(float_text(y@))]);
                assert(res@ == generated(expr@));
            }
            res
        },
        Expr::ConstVec3(x, y, z) => {
            let texts = vec![x, y, z];
            let res = float_call("vec3f", &texts);
            proof {
                assert(texts@ == seq![x, y, z]);
                let ghost expected = Seq::new(texts.len() as nat, |i: int| ChunkView::Literal(float_text(texts@[i]@)));
                assert(expected =~= seq![ChunkView::Literal(float_text(x@)), ChunkView::Literal(float_text(y@)), ChunkView::Literal(float_text(z@))]);
                assert(res@ == generated(expr@));
            }
            res
        },
        Expr::ConstVec4(x, y, z, w) => {
            let texts = vec![x, y, z, w];
            let res = float_call("vec4f", &texts);
            proof {
                assert(texts@ == seq![x, y, z, w]);
                let ghost expected = Seq::new(texts.len() as nat, |i: int| ChunkView::Literal(float_text(texts@[i]@)));
                assert(expected =~= seq![ChunkView::Literal(float_text(x@)), ChunkView::Literal(float_text(y@)), ChunkView::Literal(float_text(z@)), ChunkView::Literal(float_text(w@))]);
                assert(res@ == generated(expr@));
            }
            res
        },
        Expr::ConstColor(r, g, b, a) => {
            let texts = vec![r, g, b, a];
            let res = float_call("vec4f", &texts);
            proof {
                assert(texts@ == seq![r, g, b, a]);
                let ghost expected = Seq::new(texts.len() as nat, |i: int| ChunkView::Literal(float_text(texts@[i]@)));
                assert(expected =~= seq![ChunkView::Literal(float_text(r@)), ChunkView::Literal(float_text(g@)), ChunkView::Literal(float_text(b@)), ChunkView::Literal(float_text(a@))]);
                assert(res@ == generated(expr@));
            }
            res
        },
        Expr::RefLocal(_, name) => OutputChunk::Literal(name.clone()),
        Expr::GetAttr(_, base, fieldname) => {
            let mut args: Vec<OutputChunk> = Vec::new();
            proof {
                assert(crate::output_chunk::chunks_view(args@) =~= Seq::<ChunkView>::empty());
            }
            let b = codegen(&**base);
            push_chunk(&mut args, b);
            push_chunk(&mut args, OutputChunk::Str(fieldname));
            let ghost av = crate::output_chunk::chunks_view(args@);
            let res = OutputChunk::Infix { oper: String::from_str("."), precedence: 1, args };
            proof {
                assert(av =~= seq![generated((**base)@), ChunkView::Str(fieldname@)]);
                assert(res@ == generated(expr@));
            }
            res
        },
        Expr::FnCall(_, f, args) => {
            let ghost sv = crate::expr::args_view(args@);
            proof {
                crate::expr::lemma_args_view(args@);
                lemma_all_generatable(sv);
                assert(sv.take(0) =~= Seq::<ExprView>::empty());
            }
            let mut chunks: Vec<OutputChunk> = Vec::new();
            proof {
                assert(crate::output_chunk::chunks_view(chunks@) =~= Seq::<ChunkView>::empty());
            }
            let mut i: usize = 0;
            while i < args.len()
                invariant
                    i <= args.len(),
                    sv == crate::expr::args_view(args@),
                    sv.len() == args.len(),
                    forall|k: int| 0 <= k < args.len() ==> #[trigger] sv[k] == args@[k]@,
                    forall|k: int| 0 <= k < sv.len() ==> #[trigger] generatable(sv[k]),
                    forall|k: int| 0 <= k < sv.len() ==> decreases_to!(expr@ => #[trigger] sv[k]),
                    crate::output_chunk::chunks_view(chunks@) == generated_all(sv.take(i as int)),
                decreases args.len() - i,
            {
                proof {
                    lemma_generated_all_take(sv, i as int);
                    assert(generatable(sv[i as int]));
                }
                let c = codegen(&*args[i]);
                push_chunk(&mut chunks, c);
                i += 1;
            }
            proof {
                assert(sv.take(args.len() as int) =~= sv);
            }
            fcall(f, chunks)
        },
        _ => OutputChunk::Literal(String::new()),
    }
}

/// `all_generatable` holds of a sequence exactly when each element can be generated.
pub proof fn lemma_all_generatable(s: Seq<ExprView>)
    ensures
        all_generatable(s) <==> forall|i: int| 0 <= i < s.len() ==> #[trigger] generatable(s[i]),
    decreases s.len(),
{
    if s.len() > 0 {
        lemma_all_generatable(s.drop_last());
        if forall|i: int| 0 <= i < s.len() ==> #[trigger] generatable(s[i]) {
            assert forall|i: int| 0 <= i < s.len() - 1 implies #[trigger] generatable(s.drop_last()[i]) by {
                assert(s.drop_last()[i] == s[i]);
                assert(generatable(s[i]));
            }
            assert(generatable(s[s.len() - 1]));
        }
        if all_generatable(s) {
            assert forall|i: int| 0 <= i < s.len() implies #[trigger] generatable(s[i]) by {
                if i < s.len() - 1 {
                    assert(s.drop_last()[i] == s[i]);
                    assert(generatable(s.drop_last()[i]));
                } else {
                    assert(s.last() == s[i]);
                }
            }
        }
    }
}

/// Generating a prefix one element longer appends that element's code.
proof fn lemma_generated_all_take(s: Seq<ExprView>, i: int)
    requires
        0 <= i < s.len(),
    ensures
        generated_all(s.take(i + 1)) == generated_all(s.take(i)).push(generated(s[i])),
{
    assert(s.take(i + 1).drop_last() =~= s.take(i));
}

/// The components of a vector or color constant, in order.
pub open spec fn constant_components(e: ExprView) -> Seq<Seq<char>> {
    match e {
        ExprView::ConstVec2(x, y) => seq![x, y],
        ExprView::ConstVec3(x, y, z) => seq![x, y, z],
        ExprView::ConstVec4(x, y, z, w) => seq![x, y, z, w],
        ExprView::ConstColor(r, g, b, a) => seq![r, g, b, a],
        _ => Seq::empty(),
    }
}

/// A vector or color constant becomes a call of its constructor (`vec2f`, `vec3f` or
/// `vec4f`, after the number of components) whose k-th argument is the float text of the
/// constant's k-th component, for every k: the components keep their order.
pub proof fn lemma_vector_constant_code(e: ExprView)
    requires
        e is ConstVec2 || e is ConstVec3 || e is ConstVec4 || e is ConstColor,
    ensures
        match generated(e) {
            ChunkView::FCall { func, args } => {
                &&& args.len() == constant_components(e).len()
                &&& forall|k: int|
                    0 <= k < args.len() ==> #[trigger] args[k] == ChunkView::Literal(
                        float_text(constant_components(e)[k]),
                    )
                &&& constant_components(e).len() == 2 ==> func == "vec2f"@
                &&& constant_components(e).len() == 3 ==> func == "vec3f"@
                &&& constant_components(e).len() == 4 ==> func == "vec4f"@
            },
            _ => false,
        },
{
}

/// The number that a text of decimal digits stands for, read from the left.
pub open spec fn digits_value(s: Seq<char>) -> int
    decreases s.len(),
{
    if s.len() == 0 {
        0
    } else {
        digits_value(s.drop_last()) * 10 + (s.last() as int - '0' as int)
    }
}

/// The decimal digits of `m` are characters `0` to `9`, the first of them not `0` unless `m`
/// is 0, and they read back as `m`.
pub proof fn lemma_decimal_digits_read_back(m: nat)
    ensures
        forall|k: int|
            0 <= k < decimal_digits(m).len() ==> '0' <= #[trigger] decimal_digits(m)[k] <= '9',
        m > 0 ==> decimal_digits(m)[0] != '0',
        digits_value(decimal_digits(m)) == m,
    decreases m,
{
    if m >= 10 {
        lemma_decimal_digits_read_back(m / 10);
        let s = decimal_digits(m);
        assert(s.drop_last() =~= decimal_digits(m / 10));
        assert forall|k: int| 0 <= k < s.len() implies '0' <= #[trigger] s[k] <= '9' by {
            if k < s.len() - 1 {
                assert(s[k] == decimal_digits(m / 10)[k]);
            }
        }
        assert(s[0] == decimal_digits(m / 10)[0]);
        assert(s.last() == digit_char(m % 10));
        assert(digit_char(m % 10) as int == m % 10 + 48);
        assert('0' as int == 48);
        assert(digits_value(s) == (m / 10) * 10 + m % 10);
    } else {
        assert(decimal_digits(m).drop_last() =~= Seq::<char>::empty());
        assert(digit_char(m) as int == m + 48);
        assert('0' as int == 48);
        assert(digits_value(decimal_digits(m)) == digits_value(Seq::<char>::empty()) * 10 + (digit_char(m) as int - '0' as int));
    }
}

/// The text of a negative integer is a minus sign followed by the digits of its magnitude;
/// that of any other integer is its digits alone.
pub proof fn lemma_decimal_text_sign(n: int)
    ensures
        n < 0 ==> decimal_text(n)[0] == '-' && decimal_text(n).drop_first() == decimal_digits((-n) as nat),
        n >= 0 ==> decimal_text(n) == decimal_digits(n as nat) && decimal_text(n)[0] != '-',
{
    if n < 0 {
        assert((seq!['-'] + decimal_digits((-n) as nat)).drop_first() =~= decimal_digits((-n) as nat));
    } else {
        lemma_decimal_digits_read_back(n as nat);
        assert(decimal_digits(n as nat).len() > 0) by {
            if n >= 10 {
                assert(decimal_digits(n as nat).len() > 0);
            }
        }
    }
}

/// The WGSL text of a float constant is the value's text, with a point appended where it had
/// none: it always holds a point, and it begins with the value's text.
pub proof fn lemma_float_text_has_point(t: Seq<char>)
    ensures
        float_text(t).contains('.'),
        float_text(t).take(t.len() as int) == t,
        t.contains('.') ==> float_text(t) == t,
        !t.contains('.') ==> float_text(t) == t.push('.'),
{
    if !t.contains('.') {
        assert(t.push('.')[t.len() as int] == '.');
        assert(t.push('.').take(t.len() as int) =~= t);
    } else {
        assert(t.take(t.len() as int) =~= t);
    }
}

} // verus!
