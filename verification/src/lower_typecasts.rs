use crate::expr::{DataType, Expr, ExprView};
use std::sync::Arc;
use vstd::prelude::*;

verus! {

/// The WGSL expression for the luminance weights of red, green and blue.
pub open spec fn luma_weights() -> ExprView {
    ExprView::FnCall(
        DataType::Vec3,
        "vec3f"@,
        seq![
            ExprView::ConstF32("0.2126"@),
            ExprView::ConstF32("0.7152"@),
            ExprView::ConstF32("0.0722"@),
            ExprView::ConstF32("0"@),
        ],
    )
}

/// A cast from `from` to `to` can be lowered: no void type takes part (unless nothing is
/// converted), and it is not a cast of an integer to a color.
pub open spec fn cast_supported(to: DataType, from: DataType) -> bool {
    to == from || (to != DataType::Void && from != DataType::Void && !(to == DataType::LinearRgba
        && from == DataType::I32))
}

/// The WGSL operator or function call that converts `x`, of type `from`, to type `to`.
pub open spec fn lowered_cast(to: DataType, from: DataType, x: ExprView) -> ExprView {
    let zero = ExprView::ConstF32("0"@);
    let one = ExprView::ConstF32("1"@);
    if to == from {
        x
    } else {
        match (to, from) {
            (DataType::I32, DataType::F32) => ExprView::FnCall(DataType::I32, "i32"@, seq![x]),
            (DataType::I32, DataType::Vec2)
            | (DataType::I32, DataType::Vec3)
            | (DataType::I32, DataType::Vec4) => ExprView::FnCall(
                DataType::I32,
                "i32"@,
                seq![ExprView::GetAttr(DataType::Vec3, Box::new(x), "x"@)],
            ),
            (DataType::I32, DataType::LinearRgba) => ExprView::FnCall(
                DataType::I32,
                "i32"@,
                seq![
                    ExprView::GetAttr(
                        DataType::Vec3,
                        Box::new(ExprView::FnCall(DataType::F32, "dot"@, seq![x, luma_weights()])),
                        "x"@,
                    ),
                ],
            ),
            (DataType::F32, DataType::I32) => ExprView::FnCall(DataType::F32, "f32"@, seq![x]),
            (DataType::F32, DataType::Vec2)
            | (DataType::F32, DataType::Vec3)
            | (DataType::F32, DataType::Vec4) => ExprView::GetAttr(DataType::Vec3, Box::new(x), "xyz"@),
            (DataType::F32, DataType::LinearRgba) => ExprView::FnCall(
                DataType::F32,
                "dot"@,
                seq![x, luma_weights()],
            ),
            (DataType::Vec2, DataType::I32) => ExprView::FnCall(
                DataType::Vec2,
                "vec2<f32>"@,
                seq![ExprView::FnCall(DataType::F32, "f32"@, seq![x])],
            ),
            (DataType::Vec2, DataType::F32) => ExprView::FnCall(DataType::Vec3, "vec2<f32>"@, seq![x]),
            (DataType::Vec2, DataType::Vec3) | (DataType::Vec2, DataType::Vec4) => ExprView::GetAttr(
                DataType::Vec3,
                Box::new(x),
                "xy"@,
            ),
            (DataType::Vec2, DataType::LinearRgba) => ExprView::GetAttr(DataType::Vec3, Box::new(x), "rg"@),
            (DataType::Vec3, DataType::I32) => ExprView::FnCall(
                DataType::Vec3,
                "vec3f"@,
                seq![ExprView::FnCall(DataType::F32, "f32"@, seq![x])],
            ),
            (DataType::Vec3, DataType::F32) => ExprView::FnCall(DataType::Vec3, "vec3f"@, seq![x]),
            (DataType::Vec3, DataType::Vec2) => ExprView::FnCall(DataType::Vec3, "vec3f"@, seq![x, zero]),
            (DataType::Vec3, DataType::Vec4) => ExprView::GetAttr(DataType::Vec3, Box::new(x), "xyz"@),
            (DataType::Vec3, DataType::LinearRgba) => ExprView::GetAttr(DataType::Vec3, Box::new(x), "rgb"@),
            (DataType::Vec4, DataType::I32) => ExprView::FnCall(
                DataType::Vec4,
                "vec4f"@,
                seq![ExprView::FnCall(DataType::F32, "f32"@, seq![x])],
            ),
            (DataType::Vec4, DataType::F32) => ExprView::FnCall(DataType::Vec3, "vec4f"@, seq![x]),
            (DataType::Vec4, DataType::Vec2) => ExprView::FnCall(
                DataType::Vec4,
                "vec3f"@,
                seq![x, zero, zero],
            ),
            (DataType::Vec4, DataType::Vec3) => ExprView::FnCall(DataType::Vec4, "vec3f"@, seq![x, zero]),
            (DataType::LinearRgba, DataType::F32) => ExprView::FnCall(
                DataType::LinearRgba,
                "vec4f"@,
                seq![ExprView::FnCall(DataType::Vec3, "vec3f"@, seq![x]), one],
            ),
            (DataType::LinearRgba, DataType::Vec2) => ExprView::FnCall(
                DataType::LinearRgba,
                "vec4f"@,
                seq![x, zero, one],
            ),
            (DataType::LinearRgba, DataType::Vec3) => ExprView::FnCall(
                DataType::LinearRgba,
                "vec4f"@,
                seq![x, one],
            ),
            _ => x,
        }
    }
}

/// Every expression of the sequence can be lowered.
pub open spec fn all_lowerable(s: Seq<ExprView>) -> bool
    decreases s,
{
    if s.len() == 0 {
        true
    } else {
        all_lowerable(s.drop_last()) && lowerable(s.last())
    }
}

/// Type casts can be lowered throughout the expression: it holds no local definition, binary
/// operator or overloaded call, every cast has an operand with a type, and every cast is
/// supported.
pub open spec fn lowerable(e: ExprView) -> bool
    decreases e,
{
    match e {
        ExprView::LocalDefn(..) | ExprView::BinOp(..) | ExprView::OvCall(..) => false,
        ExprView::Assign(_, _, rhs) => lowerable(*rhs),
        ExprView::TypeCast(to, x) => !(*x is LiteralStr) && lowerable(*x) && cast_supported(
            to,
            x.typ(),
        ),
        ExprView::GetAttr(_, base, _) => lowerable(*base),
        ExprView::FnCall(_, _, args) => all_lowerable(args),
        _ => true,
    }
}

/// Each expression of the sequence, lowered.
pub open spec fn lowered_all(s: Seq<ExprView>) -> Seq<ExprView>
    decreases s,
{
    if s.len() == 0 {
        Seq::empty()
    } else {
        lowered_all(s.drop_last()).push(lowered(s.last()))
    }
}

/// The expression with every type cast replaced by the WGSL operators or calls that do it.
pub open spec fn lowered(e: ExprView) -> ExprView
    decreases e,
{
    match e {
        ExprView::Assign(dt, lhs, rhs) => ExprView::Assign(dt, lhs, Box::new(lowered(*rhs))),
        ExprView::TypeCast(to, x) => lowered_cast(to, x.typ(), lowered(*x)),
        ExprView::GetAttr(dt, base, field) => ExprView::GetAttr(dt, Box::new(lowered(*base)), field),
        ExprView::FnCall(dt, f, args) => ExprView::FnCall(dt, f, lowered_all(args)),
        _ => e,
    }
}


/// `all_lowerable` holds of a sequence exactly when each element can be lowered.
proof fn lemma_all_lowerable(s: Seq<ExprView>)
    ensures
        all_lowerable(s) <==> forall|i: int| 0 <= i < s.len() ==> #[trigger] lowerable(s[i]),
    decreases s.len(),
{
    if s.len() > 0 {
        lemma_all_lowerable(s.drop_last());
        if all_lowerable(s) {
            assert forall|i: int| 0 <= i < s.len() implies #[trigger] lowerable(s[i]) by {
                if i < s.len() - 1 {
                    assert(s.drop_last()[i] == s[i]);
                    assert(lowerable(s.drop_last()[i]));
                } else {
                    assert(s.last() == s[i]);
                }
            }
        }
        if forall|i: int| 0 <= i < s.len() ==> #[trigger] lowerable(s[i]) {
            assert forall|i: int| 0 <= i < s.len() - 1 implies #[trigger] lowerable(s.drop_last()[i]) by {
                assert(s.drop_last()[i] == s[i]);
                assert(lowerable(s[i]));
            }
            assert(lowerable(s[s.len() - 1]));
        }
    }
}

/// Lowering a prefix one element longer appends that element, lowered.
proof fn lemma_lowered_all_take(s: Seq<ExprView>, i: int)
    requires
        0 <= i < s.len(),
    ensures
        lowered_all(s.take(i + 1)) == lowered_all(s.take(i)).push(lowered(s[i])),
{
    assert(s.take(i + 1).drop_last() =~= s.take(i));
}

/// A floating-point constant, given by the text of its value.
fn f32_const(text: &str) -> (res: Arc<Expr>)
    ensures
        res@ == ExprView::ConstF32(text@),
{
    Arc::new(Expr::ConstF32(String::from_str(text)))
}

/// Appending a shared expression appends its value.
proof fn lemma_args_view_push(s: Seq<Arc<Expr>>, a: Arc<Expr>)
    ensures
        crate::expr::args_view(s.push(a)) == crate::expr::args_view(s).push(a@),
{
    assert(s.push(a).drop_last() =~= s);
}

/// The WGSL expression for the luminance weights of red, green and blue.
fn luma_weights_expr() -> (res: Arc<Expr>)
    ensures
        res@ == luma_weights(),
{
    let mut v: Vec<Arc<Expr>> = Vec::new();
    let a = f32_const("0.2126");
    let b = f32_const("0.7152");
    let c = f32_const("0.0722");
    let d = f32_const("0");
    proof {
        assert(crate::expr::args_view(v@) =~= Seq::<ExprView>::empty());
        lemma_args_view_push(v@, a);
    }
    v.push(a);
    proof {
        lemma_args_view_push(v@, b);
    }
    v.push(b);
    proof {
        lemma_args_view_push(v@, c);
    }
    v.push(c);
    proof {
        lemma_args_view_push(v@, d);
    }
    v.push(d);
    proof {
        assert(crate::expr::args_view(v@) =~= seq![
            ExprView::ConstF32("0.2126"@),
            ExprView::ConstF32("0.7152"@),
            ExprView::ConstF32("0.0722"@),
            ExprView::ConstF32("0"@),
        ]);
    }
    Arc::new(Expr::FnCall(DataType::Vec3, "vec3f", v))
}

/// A call of the function `f` with one argument.
fn call1(dt: DataType, f: &'static str, a: Arc<Expr>) -> (res: Arc<Expr>)
    ensures
        res@ == ExprView::FnCall(dt, f@, seq![a@]),
{
    let v = vec![a];
    proof {
        reveal_with_fuel(crate::expr::args_view, 2);
        assert(crate::expr::args_view(v@) =~= seq![v@[0]@]);
    }
    Arc::new(Expr::FnCall(dt, f, v))
}

/// A call of the function `f` with two arguments.
fn call2(dt: DataType, f: &'static str, a: Arc<Expr>, b: Arc<Expr>) -> (res: Arc<Expr>)
    ensures
        res@ == ExprView::FnCall(dt, f@, seq![a@, b@]),
{
    let v = vec![a, b];
    proof {
        reveal_with_fuel(crate::expr::args_view, 3);
        assert(crate::expr::args_view(v@) =~= seq![v@[0]@, v@[1]@]);
    }
    Arc::new(Expr::FnCall(dt, f, v))
}

/// A call of the function `f` with three arguments.
fn call3(dt: DataType, f: &'static str, a: Arc<Expr>, b: Arc<Expr>, c: Arc<Expr>) -> (res: Arc<Expr>)
    ensures
        res@ == ExprView::FnCall(dt, f@, seq![a@, b@, c@]),
{
    let v = vec![a, b, c];
    proof {
        reveal_with_fuel(crate::expr::args_view, 4);
        assert(crate::expr::args_view(v@) =~= seq![v@[0]@, v@[1]@, v@[2]@]);
    }
    Arc::new(Expr::FnCall(dt, f, v))
}

/// An access of the attribute `field` of `base`.
fn get_attr(dt: DataType, base: Arc<Expr>, field: &'static str) -> (res: Arc<Expr>)
    ensures
        res@ == ExprView::GetAttr(dt, Box::new(base@), field@),
{
    Arc::new(Expr::GetAttr(dt, base, field))
}

/// The WGSL operator or function call that converts `x`, of type `from`, to type `to`.
fn lower_cast(to_type: DataType, from_type: DataType, expr: Arc<Expr>) -> (res: Arc<Expr>)
    requires
        cast_supported(to_type, from_type),
    ensures
        res@ == lowered_cast(to_type, from_type, expr@),
{
    if to_type == from_type {
        // No conversion needed.
        return expr;
    }
    match (to_type, from_type) {
        (DataType::I32, DataType::F32) => call1(DataType::I32, "i32", expr),
        // Use only x, then cast to i32
        (DataType::I32, DataType::Vec2)
        | (DataType::I32, DataType::Vec3)
        | (DataType::I32, DataType::Vec4) => call1(
            DataType::I32,
            "i32",
            get_attr(DataType::Vec3, expr, "x"),
        ),
        // Extract luminance, convert to i32
        (DataType::I32, DataType::LinearRgba) => call1(
            DataType::I32,
            "i32",
            get_attr(DataType::Vec3, call2(DataType::F32, "dot", expr, luma_weights_expr()), "x"),
        ),
        // Simple numeric cast
        (DataType::F32, DataType::I32) => call1(DataType::F32, "f32", expr),
        // Take the first three components
        (DataType::F32, DataType::Vec2)
        | (DataType::F32, DataType::Vec3)
        | (DataType::F32, DataType::Vec4) => get_attr(DataType::Vec3, expr, "xyz"),
        // For color to f32, extract luminance
        (DataType::F32, DataType::LinearRgba) => call2(DataType::F32, "dot", expr, luma_weights_expr()),
        // Splat constructor with f32 conversion
        (DataType::Vec2, DataType::I32) => call1(
            DataType::Vec2,
            "vec2<f32>",
            call1(DataType::F32, "f32", expr),
        ),
        // Splat constructor
        (DataType::Vec2, DataType::F32) => call1(DataType::Vec3, "vec2<f32>", expr),
        // Use only xy
        (DataType::Vec2, DataType::Vec3) | (DataType::Vec2, DataType::Vec4) => get_attr(
            DataType::Vec3,
            expr,
            "xy",
        ),
        // Use only rg
        (DataType::Vec2, DataType::LinearRgba) => get_attr(DataType::Vec3, expr, "rg"),
        // Splat constructor with f32 conversion
        (DataType::Vec3, DataType::I32) => call1(
            DataType::Vec3,
            "vec3f",
            call1(DataType::F32, "f32", expr),
        ),
        // Splat constructor
        (DataType::Vec3, DataType::F32) => call1(DataType::Vec3, "vec3f", expr),
        // Spread constructor with z=0
        (DataType::Vec3, DataType::Vec2) => call2(DataType::Vec3, "vec3f", expr, f32_const("0")),
        // Use only xyz
        (DataType::Vec3, DataType::Vec4) => get_attr(DataType::Vec3, expr, "xyz"),
        // Drop alpha
        (DataType::Vec3, DataType::LinearRgba) => get_attr(DataType::Vec3, expr, "rgb"),
        // Splat constructor with f32 conversion
        (DataType::Vec4, DataType::I32) => call1(
            DataType::Vec4,
            "vec4f",
            call1(DataType::F32, "f32", expr),
        ),
        // Splat constructor
        (DataType::Vec4, DataType::F32) => call1(DataType::Vec3, "vec4f", expr),
        // Spread constructor with zw=0
        (DataType::Vec4, DataType::Vec2) => call3(
            DataType::Vec4,
            "vec3f",
            expr,
            f32_const("0"),
            f32_const("0"),
        ),
        // Spread constructor with w=0
        (DataType::Vec4, DataType::Vec3) => call2(DataType::Vec4, "vec3f", expr, f32_const("0")),
        // Splat constructor with alpha: `vec4f(vec3f(expr), 1.0)`
        (DataType::LinearRgba, DataType::F32) => call2(
            DataType::LinearRgba,
            "vec4f",
            call1(DataType::Vec3, "vec3f", expr),
            f32_const("1"),
        ),
        // Assign to RG, default BA: `vec4f(expr, 0.0, 1.0)`
        (DataType::LinearRgba, DataType::Vec2) => call3(
            DataType::LinearRgba,
            "vec4f",
            expr,
            f32_const("0"),
            f32_const("1"),
        ),
        // Assign to RGB, default A: `vec4f(expr, 1.0)`
        (DataType::LinearRgba, DataType::Vec3) => call2(
            DataType::LinearRgba,
            "vec4f",
            expr,
            f32_const("1"),
        ),
        // Identity conversions (color and vector share one representation)
        _ => expr,
    }
}

/// Lower typecasts to WGSL operators or function calls.
pub fn lower_typecasts(expr: Arc<Expr>) -> (res: Arc<Expr>)
    requires
        lowerable(expr@),
    ensures
        res@ == lowered(expr@),
    decreases expr@,
{
    match &*expr {
        Expr::Assign(dt, lhs, rhs) => {
            let low = lower_typecasts(rhs.clone());
            Arc::new(Expr::Assign(*dt, lhs.clone(), low))
        },
        Expr::TypeCast(to_type, e) => {
            proof {
                let ghost inner: Expr = **e;
                if inner is LiteralStr {
                    assert(inner.deep_view_of() is LiteralStr);
                }
            }
            let from_type = e.typ();
            let low = lower_typecasts(e.clone());
            lower_cast(*to_type, from_type, low)
        },
        Expr::GetAttr(dt, base, fieldname) => {
            let low = lower_typecasts(base.clone());
            Arc::new(Expr::GetAttr(*dt, low, fieldname))
        },
        Expr::FnCall(dt, f, args) => {
            let ghost sv = crate::expr::args_view(args@);
            proof {
                crate::expr::lemma_args_view(args@);
                lemma_all_lowerable(sv);
                assert(args@.take(0) =~= Seq::<Arc<Expr>>::empty());
                assert(sv.take(0) =~= Seq::<ExprView>::empty());
            }
            let mut lowered_args: Vec<Arc<Expr>> = Vec::new();
            let mut i: usize = 0;
            while i < args.len()
                invariant
                    i <= args.len(),
                    sv == crate::expr::args_view(args@),
                    sv.len() == args.len(),
                    forall|k: int| 0 <= k < args.len() ==> #[trigger] sv[k] == args@[k]@,
                    forall|k: int| 0 <= k < sv.len() ==> #[trigger] lowerable(sv[k]),
                    forall|k: int| 0 <= k < sv.len() ==> decreases_to!(expr@ => #[trigger] sv[k]),
                    crate::expr::args_view(lowered_args@) == lowered_all(sv.take(i as int)),
                decreases args.len() - i,
            {
                proof {
                    lemma_lowered_all_take(sv, i as int);
                    assert(lowerable(sv[i as int]));
                }
                let low = lower_typecasts(args[i].clone());
                let ghost before = lowered_args@;
                lowered_args.push(low);
                proof {
                    assert(lowered_args@.drop_last() == before);
                }
                i += 1;
            }
            proof {
                assert(sv.take(args.len() as int) =~= sv);
            }
            Arc::new(Expr::FnCall(*dt, f, lowered_args))
        },
        _ => expr.clone(),
    }
}


/// Every expression of the sequence lowers to code that can be generated.
pub open spec fn all_lower_to_generatable(s: Seq<ExprView>) -> bool
    decreases s,
{
    if s.len() == 0 {
        true
    } else {
        all_lower_to_generatable(s.drop_last()) && lowers_to_generatable(s.last())
    }
}

/// The expression is built of constants, local variable references, attribute accesses,
/// function calls and supported type casts of typed operands: lowering turns it into code
/// that can be generated.
pub open spec fn lowers_to_generatable(e: ExprView) -> bool
    decreases e,
{
    match e {
        ExprView::ConstI32(_) | ExprView::ConstF32(_) | ExprView::ConstVec2(..)
        | ExprView::ConstVec3(..) | ExprView::ConstVec4(..) | ExprView::ConstColor(..)
        | ExprView::RefLocal(..) => true,
        ExprView::TypeCast(to, x) => !(*x is LiteralStr) && cast_supported(to, x.typ())
            && lowers_to_generatable(*x),
        ExprView::GetAttr(_, base, _) => lowers_to_generatable(*base),
        ExprView::FnCall(_, _, args) => all_lower_to_generatable(args),
        _ => false,
    }
}

/// `all_lower_to_generatable` holds of a sequence exactly when it holds of each element.
proof fn lemma_all_lower_to_generatable(s: Seq<ExprView>)
    ensures
        all_lower_to_generatable(s) <==> forall|i: int|
            0 <= i < s.len() ==> #[trigger] lowers_to_generatable(s[i]),
    decreases s.len(),
{
    if s.len() > 0 {
        lemma_all_lower_to_generatable(s.drop_last());
        if all_lower_to_generatable(s) {
            assert forall|i: int| 0 <= i < s.len() implies #[trigger] lowers_to_generatable(s[i]) by {
                if i < s.len() - 1 {
                    assert(s.drop_last()[i] == s[i]);
                    assert(lowers_to_generatable(s.drop_last()[i]));
                } else {
                    assert(s.last() == s[i]);
                }
            }
        }
        if forall|i: int| 0 <= i < s.len() ==> #[trigger] lowers_to_generatable(s[i]) {
            assert forall|i: int| 0 <= i < s.len() - 1 implies #[trigger] lowers_to_generatable(
                s.drop_last()[i],
            ) by {
                assert(s.drop_last()[i] == s[i]);
                assert(lowers_to_generatable(s[i]));
            }
            assert(lowers_to_generatable(s[s.len() - 1]));
        }
    }
}

/// Lowering each element of a sequence, element by element.
proof fn lemma_lowered_all(s: Seq<ExprView>)
    ensures
        lowered_all(s).len() == s.len(),
        forall|i: int| 0 <= i < s.len() ==> #[trigger] lowered_all(s)[i] == lowered(s[i]),
    decreases s.len(),
{
    if s.len() > 0 {
        lemma_lowered_all(s.drop_last());
        assert forall|i: int| 0 <= i < s.len() implies #[trigger] lowered_all(s)[i] == lowered(s[i]) by {
            if i < s.len() - 1 {
                assert(s.drop_last()[i] == s[i]);
            }
        }
    }
}

/// The code of a cast of generatable code can be generated.
proof fn lemma_lowered_cast_generatable(to: DataType, from: DataType, x: ExprView)
    requires
        crate::codegen::generatable(x),
    ensures
        crate::codegen::generatable(lowered_cast(to, from, x)),
{
    let zero = ExprView::ConstF32("0"@);
    let one = ExprView::ConstF32("1"@);
    let w = luma_weights();
    crate::codegen::lemma_all_generatable(seq![
        ExprView::ConstF32("0.2126"@),
        ExprView::ConstF32("0.7152"@),
        ExprView::ConstF32("0.0722"@),
        ExprView::ConstF32("0"@),
    ]);
    assert(crate::codegen::generatable(w));
    crate::codegen::lemma_all_generatable(seq![x]);
    crate::codegen::lemma_all_generatable(seq![x, w]);
    crate::codegen::lemma_all_generatable(seq![x, zero]);
    crate::codegen::lemma_all_generatable(seq![x, one]);
    crate::codegen::lemma_all_generatable(seq![x, zero, zero]);
    crate::codegen::lemma_all_generatable(seq![x, zero, one]);
    let f = ExprView::FnCall(DataType::F32, "f32"@, seq![x]);
    let d = ExprView::FnCall(DataType::F32, "dot"@, seq![x, w]);
    let v3 = ExprView::FnCall(DataType::Vec3, "vec3f"@, seq![x]);
    assert(crate::codegen::generatable(f));
    assert(crate::codegen::generatable(d));
    assert(crate::codegen::generatable(v3));
    crate::codegen::lemma_all_generatable(seq![f]);
    crate::codegen::lemma_all_generatable(seq![v3, one]);
    let gx = ExprView::GetAttr(DataType::Vec3, Box::new(x), "x"@);
    let gd = ExprView::GetAttr(DataType::Vec3, Box::new(d), "x"@);
    assert(crate::codegen::generatable(gx));
    assert(crate::codegen::generatable(gd));
    crate::codegen::lemma_all_generatable(seq![gx]);
    crate::codegen::lemma_all_generatable(seq![gd]);
}

/// Lowering turns every expression built of constants, local references, attribute
/// accesses, function calls and supported casts into cast-free code that code generation
/// accepts.
pub proof fn lemma_lowered_is_generatable(e: ExprView)
    requires
        lowers_to_generatable(e),
    ensures
        lowerable(e),
        crate::codegen::generatable(lowered(e)),
    decreases e,
{
    match e {
        ExprView::TypeCast(to, x) => {
            lemma_lowered_is_generatable(*x);
            lemma_lowered_cast_generatable(to, x.typ(), lowered(*x));
            assert(lowered(e) == lowered_cast(to, x.typ(), lowered(*x)));
        },
        ExprView::GetAttr(_, base, _) => {
            lemma_lowered_is_generatable(*base);
        },
        ExprView::FnCall(_, _, args) => {
            lemma_all_lower_to_generatable(args);
            lemma_lowered_all(args);
            assert forall|i: int| 0 <= i < args.len() implies #[trigger] lowerable(args[i]) by {
                lemma_lowered_is_generatable(args[i]);
            }
            assert forall|i: int| 0 <= i < args.len() implies #[trigger] crate::codegen::generatable(
                lowered_all(args)[i],
            ) by {
                lemma_lowered_is_generatable(args[i]);
            }
            lemma_all_lowerable(args);
            crate::codegen::lemma_all_generatable(lowered_all(args));
        },
        _ => {},
    }
}

/// Code that code generation accepts has no casts left: lowering it changes nothing, so
/// lowering twice gives what lowering once gives.
pub proof fn lemma_lowering_generatable_is_identity(e: ExprView)
    requires
        crate::codegen::generatable(e),
    ensures
        lowerable(e),
        lowered(e) == e,
    decreases e,
{
    match e {
        ExprView::GetAttr(_, base, _) => {
            lemma_lowering_generatable_is_identity(*base);
        },
        ExprView::FnCall(_, _, args) => {
            crate::codegen::lemma_all_generatable(args);
            lemma_lowered_all(args);
            assert forall|i: int| 0 <= i < args.len() implies #[trigger] lowerable(args[i]) by {
                lemma_lowering_generatable_is_identity(args[i]);
            }
            assert forall|i: int| 0 <= i < args.len() implies #[trigger] lowered_all(args)[i] == args[i] by {
                lemma_lowering_generatable_is_identity(args[i]);
            }
            lemma_all_lowerable(args);
            assert(lowered_all(args) =~= args);
        },
        _ => {},
    }
}

/// Every expression of the sequence is free of type casts.
pub open spec fn all_cast_free(s: Seq<ExprView>) -> bool
    decreases s,
{
    if s.len() == 0 {
        true
    } else {
        all_cast_free(s.drop_last()) && cast_free(s.last())
    }
}

/// The expression holds no type cast, and nothing that lowering refuses (local definitions,
/// binary operators, overloaded calls).
pub open spec fn cast_free(e: ExprView) -> bool
    decreases e,
{
    match e {
        ExprView::LocalDefn(..) | ExprView::BinOp(..) | ExprView::OvCall(..) | ExprView::TypeCast(..) => false,
        ExprView::Assign(_, _, rhs) => cast_free(*rhs),
        ExprView::GetAttr(_, base, _) => cast_free(*base),
        ExprView::FnCall(_, _, args) => all_cast_free(args),
        _ => true,
    }
}

/// `all_cast_free` holds of a sequence exactly when it holds of each element.
proof fn lemma_all_cast_free(s: Seq<ExprView>)
    ensures
        all_cast_free(s) <==> forall|i: int| 0 <= i < s.len() ==> #[trigger] cast_free(s[i]),
    decreases s.len(),
{
    if s.len() > 0 {
        lemma_all_cast_free(s.drop_last());
        if all_cast_free(s) {
            assert forall|i: int| 0 <= i < s.len() implies #[trigger] cast_free(s[i]) by {
                if i < s.len() - 1 {
                    assert(s.drop_last()[i] == s[i]);
                    assert(cast_free(s.drop_last()[i]));
                } else {
                    assert(s.last() == s[i]);
                }
            }
        }
        if forall|i: int| 0 <= i < s.len() ==> #[trigger] cast_free(s[i]) {
            assert forall|i: int| 0 <= i < s.len() - 1 implies #[trigger] cast_free(s.drop_last()[i]) by {
                assert(s.drop_last()[i] == s[i]);
                assert(cast_free(s[i]));
            }
            assert(cast_free(s[s.len() - 1]));
        }
    }
}

/// Lowering changes nothing in a cast-free expression.
proof fn lemma_cast_free_is_fixed(e: ExprView)
    requires
        cast_free(e),
    ensures
        lowerable(e),
        lowered(e) == e,
    decreases e,
{
    match e {
        ExprView::Assign(_, _, rhs) => {
            lemma_cast_free_is_fixed(*rhs);
        },
        ExprView::GetAttr(_, base, _) => {
            lemma_cast_free_is_fixed(*base);
        },
        ExprView::FnCall(_, _, args) => {
            lemma_all_cast_free(args);
            lemma_lowered_all(args);
            assert forall|i: int| 0 <= i < args.len() implies #[trigger] lowerable(args[i]) by {
                lemma_cast_free_is_fixed(args[i]);
            }
            assert forall|i: int| 0 <= i < args.len() implies #[trigger] lowered_all(args)[i] == args[i] by {
                lemma_cast_free_is_fixed(args[i]);
            }
            lemma_all_lowerable(args);
            assert(lowered_all(args) =~= args);
        },
        _ => {},
    }
}

/// The lowered form of a cast of a cast-free expression is cast-free.
proof fn lemma_lowered_cast_cast_free(to: DataType, from: DataType, x: ExprView)
    requires
        cast_free(x),
    ensures
        cast_free(lowered_cast(to, from, x)),
{
    let zero = ExprView::ConstF32("0"@);
    let one = ExprView::ConstF32("1"@);
    let w = luma_weights();
    lemma_all_cast_free(seq![
        ExprView::ConstF32("0.2126"@),
        ExprView::ConstF32("0.7152"@),
        ExprView::ConstF32("0.0722"@),
        ExprView::ConstF32("0"@),
    ]);
    assert(cast_free(w));
    lemma_all_cast_free(seq![x]);
    lemma_all_cast_free(seq![x, w]);
    lemma_all_cast_free(seq![x, zero]);
    lemma_all_cast_free(seq![x, one]);
    lemma_all_cast_free(seq![x, zero, zero]);
    lemma_all_cast_free(seq![x, zero, one]);
    let f = ExprView::FnCall(DataType::F32, "f32"@, seq![x]);
    let d = ExprView::FnCall(DataType::F32, "dot"@, seq![x, w]);
    let v3 = ExprView::FnCall(DataType::Vec3, "vec3f"@, seq![x]);
    assert(cast_free(f));
    assert(cast_free(d));
    assert(cast_free(v3));
    lemma_all_cast_free(seq![f]);
    lemma_all_cast_free(seq![v3, one]);
    let gx = ExprView::GetAttr(DataType::Vec3, Box::new(x), "x"@);
    let gd = ExprView::GetAttr(DataType::Vec3, Box::new(d), "x"@);
    assert(cast_free(gx));
    assert(cast_free(gd));
    lemma_all_cast_free(seq![gx]);
    lemma_all_cast_free(seq![gd]);
}

/// Lowering leaves no type cast in an expression it accepts.
pub proof fn lemma_lowered_is_cast_free(e: ExprView)
    requires
        lowerable(e),
    ensures
        cast_free(lowered(e)),
    decreases e,
{
    match e {
        ExprView::Assign(_, _, rhs) => {
            lemma_lowered_is_cast_free(*rhs);
        },
        ExprView::TypeCast(to, x) => {
            lemma_lowered_is_cast_free(*x);
            lemma_lowered_cast_cast_free(to, x.typ(), lowered(*x));
        },
        ExprView::GetAttr(_, base, _) => {
            lemma_lowered_is_cast_free(*base);
        },
        ExprView::FnCall(_, _, args) => {
            lemma_all_lowerable(args);
            lemma_lowered_all(args);
            assert forall|i: int| 0 <= i < args.len() implies #[trigger] cast_free(lowered_all(args)[i]) by {
                lemma_lowered_is_cast_free(args[i]);
            }
            lemma_all_cast_free(lowered_all(args));
        },
        _ => {},
    }
}

/// Lowering is idempotent: a lowered expression can be lowered again, and lowering it again
/// changes nothing.
pub proof fn lemma_lowering_idempotent(e: ExprView)
    requires
        lowerable(e),
    ensures
        lowerable(lowered(e)),
        lowered(lowered(e)) == lowered(e),
{
    lemma_lowered_is_cast_free(e);
    lemma_cast_free_is_fixed(lowered(e));
}

/// Converting a value to a color gives an opaque color. A vector of three components becomes
/// `vec4f(x, 1)`: its red, green and blue are the vector and its alpha is the constant 1. A
/// vector of two becomes `vec4f(x, 0, 1)`, and a single float `vec4f(vec3f(x), 1)`.
pub proof fn lemma_color_cast_is_opaque(x: ExprView)
    ensures
        x.typ() == DataType::Vec3 ==> lowered(ExprView::TypeCast(DataType::LinearRgba, Box::new(x)))
            == ExprView::FnCall(
            DataType::LinearRgba,
            "vec4f"@,
            seq![lowered(x), ExprView::ConstF32("1"@)],
        ),
        x.typ() == DataType::Vec2 ==> lowered(ExprView::TypeCast(DataType::LinearRgba, Box::new(x)))
            == ExprView::FnCall(
            DataType::LinearRgba,
            "vec4f"@,
            seq![lowered(x), ExprView::ConstF32("0"@), ExprView::ConstF32("1"@)],
        ),
        x.typ() == DataType::F32 ==> lowered(ExprView::TypeCast(DataType::LinearRgba, Box::new(x)))
            == ExprView::FnCall(
            DataType::LinearRgba,
            "vec4f"@,
            seq![ExprView::FnCall(DataType::Vec3, "vec3f"@, seq![lowered(x)]), ExprView::ConstF32("1"@)],
        ),
{
}

/// Casting a vector constant to the vector type of its own width leaves it as it is: lowering
/// adds no conversion.
pub proof fn lemma_vector_constant_cast_to_own_width(x: Seq<char>, y: Seq<char>, z: Seq<char>, w: Seq<char>)
    ensures
        lowered(ExprView::TypeCast(DataType::Vec2, Box::new(ExprView::ConstVec2(x, y))))
            == ExprView::ConstVec2(x, y),
        lowered(ExprView::TypeCast(DataType::Vec3, Box::new(ExprView::ConstVec3(x, y, z))))
            == ExprView::ConstVec3(x, y, z),
        lowered(ExprView::TypeCast(DataType::Vec4, Box::new(ExprView::ConstVec4(x, y, z, w))))
            == ExprView::ConstVec4(x, y, z, w),
{
    assert(lowered(ExprView::ConstVec2(x, y)) == ExprView::ConstVec2(x, y));
    assert(lowered(ExprView::ConstVec3(x, y, z)) == ExprView::ConstVec3(x, y, z));
    assert(lowered(ExprView::ConstVec4(x, y, z, w)) == ExprView::ConstVec4(x, y, z, w));
}

/// The number of components of a vector or color type; a float counts as one.
pub open spec fn vector_width(dt: DataType) -> int {
    match dt {
        DataType::F32 => 1,
        DataType::Vec2 => 2,
        DataType::Vec3 => 3,
        DataType::Vec4 | DataType::LinearRgba => 4,
        _ => 0,
    }
}

/// Converting to a narrower vector keeps the leading components: the result reads as many
/// of `x`, `y`, `z` (of `r`, `g`, `b` for a color) as the target type has. Converting a
/// narrower vector to a wider one keeps the vector as the first constructor argument and
/// fills each missing component with the constant 0.
pub proof fn lemma_vector_cast_widths(to: DataType, x: ExprView)
    requires
        to is Vec2 || to is Vec3 || to is Vec4,
        x.typ() is Vec2 || x.typ() is Vec3 || x.typ() is Vec4 || x.typ() is LinearRgba,
    ensures
        vector_width(to) < vector_width(x.typ()) ==> lowered(ExprView::TypeCast(to, Box::new(x)))
            == ExprView::GetAttr(
            DataType::Vec3,
            Box::new(lowered(x)),
            if x.typ() is LinearRgba {
                seq!['r', 'g', 'b'].take(vector_width(to))
            } else {
                seq!['x', 'y', 'z'].take(vector_width(to))
            },
        ),
        vector_width(x.typ()) < vector_width(to) && !(x.typ() is LinearRgba) ==> match lowered(
            ExprView::TypeCast(to, Box::new(x)),
        ) {
            ExprView::FnCall(dt, _, args) => {
                &&& dt == to
                &&& args.len() == 1 + vector_width(to) - vector_width(x.typ())
                &&& args[0] == lowered(x)
                &&& forall|k: int| 1 <= k < args.len() ==> #[trigger] args[k] == ExprView::ConstF32("0"@)
            },
            _ => false,
        },
{
    reveal_strlit("xy");
    reveal_strlit("xyz");
    reveal_strlit("rg");
    reveal_strlit("rgb");
    assert(seq!['x', 'y', 'z'].take(2) =~= "xy"@);
    assert(seq!['x', 'y', 'z'].take(3) =~= "xyz"@);
    assert(seq!['r', 'g', 'b'].take(2) =~= "rg"@);
    assert(seq!['r', 'g', 'b'].take(3) =~= "rgb"@);
}

/// Converting between a float and an integer calls the WGSL conversion named after the target
/// type on the value alone; converting a color to a number goes through its luminance, the
/// dot product with the weights of red, green and blue.
pub proof fn lemma_scalar_casts(x: ExprView)
    ensures
        x.typ() == DataType::F32 ==> lowered(ExprView::TypeCast(DataType::I32, Box::new(x)))
            == ExprView::FnCall(DataType::I32, "i32"@, seq![lowered(x)]),
        x.typ() == DataType::I32 ==> lowered(ExprView::TypeCast(DataType::F32, Box::new(x)))
            == ExprView::FnCall(DataType::F32, "f32"@, seq![lowered(x)]),
        x.typ() == DataType::LinearRgba ==> lowered(ExprView::TypeCast(DataType::F32, Box::new(x)))
            == ExprView::FnCall(
            DataType::F32,
            "dot"@,
            seq![
                lowered(x),
                ExprView::FnCall(
                    DataType::Vec3,
                    "vec3f"@,
                    seq![
                        ExprView::ConstF32("0.2126"@),
                        ExprView::ConstF32("0.7152"@),
                        ExprView::ConstF32("0.0722"@),
                        ExprView::ConstF32("0"@),
                    ],
                ),
            ],
        ),
{
}

} // verus!
