use std::sync::Arc;
use vortex_gen::codegen::{codegen, i32_to_decimal};
use vortex_gen::expr::{BinOp, DataType, Expr, Precedence};
use vortex_gen::lower_typecasts::lower_typecasts;
use vortex_gen::output_chunk::OutputChunk;

fn flat(chunk: &OutputChunk) -> String {
    let mut out = String::new();
    chunk.flatten(&mut out).unwrap();
    out
}

fn f(text: &str) -> Expr {
    Expr::ConstF32(String::from(text))
}

#[test]
fn precedence_of_operators() {
    assert_eq!(BinOp::Add.precedence(), Precedence::AddSub);
    assert_eq!(BinOp::Sub.precedence(), Precedence::AddSub);
    assert_eq!(BinOp::Mul.precedence(), Precedence::MulDiv);
    assert_eq!(BinOp::Div.precedence(), Precedence::MulDiv);
    assert_eq!(BinOp::Mod.precedence(), Precedence::MulDiv);
    assert!(Precedence::Group < Precedence::AddSub);
    assert!(Precedence::AddSub < Precedence::MulDiv);
    assert!(Precedence::Or < Precedence::Assign);
}

#[test]
fn types_of_expressions() {
    assert_eq!(Expr::ConstI32(3).typ(), DataType::I32);
    assert_eq!(f("0.5").typ(), DataType::F32);
    let c = Expr::ConstColor("1".into(), "0".into(), "0".into(), "1".into());
    assert_eq!(c.typ(), DataType::Vec4);
    let a = Expr::Assign(DataType::F32, "x".into(), Arc::new(f("1")));
    assert_eq!(a.typ(), DataType::Void);
    let r = Expr::RefLocal(DataType::Vec3, "p".into());
    assert_eq!(r.typ(), DataType::Vec3);
}

#[test]
fn cast_to_same_type_is_identity() {
    let e = Expr::ConstI32(7);
    assert_eq!(e.cast(DataType::I32), Expr::ConstI32(7));
}

#[test]
fn cast_to_other_type_wraps() {
    let e = Expr::ConstI32(7);
    assert_eq!(
        e.cast(DataType::F32),
        Expr::TypeCast(DataType::F32, Arc::new(Expr::ConstI32(7)))
    );
}

#[test]
fn decimal_text_of_integers() {
    assert_eq!(i32_to_decimal(0), "0");
    assert_eq!(i32_to_decimal(42), "42");
    assert_eq!(i32_to_decimal(-42), "-42");
    assert_eq!(i32_to_decimal(i32::MAX), i32::MAX.to_string());
    assert_eq!(i32_to_decimal(i32::MIN), i32::MIN.to_string());
}

#[test]
fn codegen_constants() {
    assert_eq!(codegen(&Expr::ConstI32(-5)), OutputChunk::Literal("-5".into()));
    assert_eq!(codegen(&f("1")), OutputChunk::Literal("1.".into()));
    assert_eq!(codegen(&f("0.25")), OutputChunk::Literal("0.25".into()));
    let v = Expr::ConstVec2("1".into(), "0.5".into());
    assert_eq!(flat(&codegen(&v)), "vec2f(1., 0.5)");
    let v3 = Expr::ConstVec3("1".into(), "2".into(), "3".into());
    assert_eq!(flat(&codegen(&v3)), "vec3f(1., 2., 3.)");
    let c = Expr::ConstColor("1".into(), "0".into(), "0".into(), "1".into());
    assert_eq!(flat(&codegen(&c)), "vec4f(1., 0., 0., 1.)");
}

#[test]
fn codegen_references_and_calls() {
    let r = Expr::RefLocal(DataType::Vec3, "mesh.world_position".into());
    assert_eq!(codegen(&r), OutputChunk::Literal("mesh.world_position".into()));
    let g = Expr::GetAttr(DataType::F32, Arc::new(Expr::RefLocal(DataType::Vec3, "p".into())), "x");
    assert_eq!(flat(&codegen(&g)), "p . x");
    let call = Expr::FnCall(
        DataType::F32,
        "mix",
        vec![Arc::new(f("0")), Arc::new(f("1")), Arc::new(f("0.5"))],
    );
    assert_eq!(flat(&codegen(&call)), "mix(0., 1., 0.5)");
}

#[test]
fn lower_cast_int_to_float() {
    let e = Arc::new(Expr::TypeCast(DataType::F32, Arc::new(Expr::ConstI32(3))));
    let low = lower_typecasts(e);
    assert_eq!(
        *low,
        Expr::FnCall(DataType::F32, "f32", vec![Arc::new(Expr::ConstI32(3))])
    );
    assert_eq!(flat(&codegen(&low)), "f32(3)");
}

#[test]
fn lower_cast_float_to_color() {
    let e = Arc::new(Expr::TypeCast(DataType::LinearRgba, Arc::new(f("0.5"))));
    let low = lower_typecasts(e);
    assert_eq!(flat(&codegen(&low)), "vec4f(vec3f(0.5), 1.)");
}

#[test]
fn lower_cast_color_to_float_uses_luminance() {
    let c = Expr::RefLocal(DataType::LinearRgba, "color".into());
    let e = Arc::new(Expr::TypeCast(DataType::F32, Arc::new(c)));
    let low = lower_typecasts(e);
    assert_eq!(
        flat(&codegen(&low)),
        "dot(color, vec3f(0.2126, 0.7152, 0.0722, 0.))"
    );
}

#[test]
fn lower_cast_vec2_to_color() {
    let v = Expr::RefLocal(DataType::Vec2, "uv".into());
    let e = Arc::new(Expr::TypeCast(DataType::LinearRgba, Arc::new(v)));
    let low = lower_typecasts(e);
    assert_eq!(flat(&codegen(&low)), "vec4f(uv, 0., 1.)");
}

#[test]
fn lower_cast_to_same_type_drops_cast() {
    let v = Expr::RefLocal(DataType::Vec3, "p".into());
    let e = Arc::new(Expr::TypeCast(DataType::Vec3, Arc::new(v)));
    let low = lower_typecasts(e);
    assert_eq!(*low, Expr::RefLocal(DataType::Vec3, "p".into()));
}

#[test]
fn lower_inside_calls_and_attributes() {
    let inner = Expr::TypeCast(DataType::Vec3, Arc::new(Expr::ConstI32(1)));
    let e = Arc::new(Expr::GetAttr(
        DataType::F32,
        Arc::new(Expr::FnCall(DataType::Vec3, "normalize", vec![Arc::new(inner)])),
        "y",
    ));
    let low = lower_typecasts(e);
    assert_eq!(flat(&codegen(&low)), "normalize(vec3f(f32(1))) . y");
}

#[test]
fn lowering_twice_is_lowering_once() {
    let e = Arc::new(Expr::TypeCast(
        DataType::I32,
        Arc::new(Expr::RefLocal(DataType::LinearRgba, "c".into())),
    ));
    let once = lower_typecasts(e);
    let twice = lower_typecasts(once.clone());
    assert_eq!(*once, *twice);
}

#[test]
fn lower_assignment_lowers_right_side() {
    let e = Arc::new(Expr::Assign(
        DataType::Void,
        "x".into(),
        Arc::new(Expr::TypeCast(DataType::I32, Arc::new(f("2.5")))),
    ));
    let low = lower_typecasts(e);
    assert_eq!(
        *low,
        Expr::Assign(
            DataType::Void,
            "x".into(),
            Arc::new(Expr::FnCall(DataType::I32, "i32", vec![Arc::new(f("2.5"))]))
        )
    );
}

#[test]
fn lowering_assignments_and_inputs_twice_is_lowering_once() {
    let cast = Expr::TypeCast(DataType::F32, Arc::new(Expr::RefInput(DataType::Vec3, String::from("pos"))));
    let color = Expr::TypeCast(DataType::LinearRgba, Arc::new(Expr::RefUniform(DataType::F32, String::from("k"))));
    let e = Arc::new(Expr::Assign(
        DataType::F32,
        String::from("x"),
        Arc::new(Expr::FnCall(DataType::F32, "max", vec![Arc::new(cast), Arc::new(color)])),
    ));
    let once = lower_typecasts(e);
    let twice = lower_typecasts(once.clone());
    assert_eq!(*twice, *once);
    let expected = Expr::Assign(
        DataType::F32,
        String::from("x"),
        Arc::new(Expr::FnCall(
            DataType::F32,
            "max",
            vec![
                Arc::new(Expr::GetAttr(DataType::Vec3, Arc::new(Expr::RefInput(DataType::Vec3, String::from("pos"))), "xyz")),
                Arc::new(Expr::FnCall(
                    DataType::LinearRgba,
                    "vec4f",
                    vec![
                        Arc::new(Expr::FnCall(DataType::Vec3, "vec3f", vec![Arc::new(Expr::RefUniform(DataType::F32, String::from("k")))])),
                        Arc::new(f("1")),
                    ],
                )),
            ],
        )),
    );
    assert_eq!(*once, expected);
}
