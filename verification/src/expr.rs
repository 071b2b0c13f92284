use std::sync::Arc;
use vstd::prelude::*;

verus! {

/// The data types of shader values.
#[derive(Debug, Clone, Copy, PartialEq, Eq, Structural)]
pub enum DataType {
    Void,
    I32,
    F32,
    Vec2,
    Vec3,
    Vec4,
    LinearRgba,
}

/// Binary arithmetic operators.
#[derive(Debug, Clone, Copy, PartialEq, Eq, Structural)]
pub enum BinOp {
    Add,
    Sub,
    Mul,
    Div,
    Mod,
}

/// Operator precedence classes, from the tightest binding to the loosest.
#[derive(Debug, Clone, Copy, PartialEq, Eq, PartialOrd, Ord, Structural)]
pub enum Precedence {
    Group,
    AddSub,
    MulDiv,
    Relational,
    Eq,
    And,
    Xor,
    Or,
    Assign,
}

impl BinOp {
    /// The precedence class of the operator.
    pub fn precedence(&self) -> (res: Precedence)
        ensures
            res == (match *self {
                BinOp::Add | BinOp::Sub => Precedence::AddSub,
                BinOp::Mul | BinOp::Div | BinOp::Mod => Precedence::MulDiv,
            }),
    {
        match self {
            BinOp::Add | BinOp::Sub => Precedence::AddSub,
            BinOp::Mul | BinOp::Div | BinOp::Mod => Precedence::MulDiv,
        }
    }
}

/// A shader expression tree.
///
/// Floating-point constants are held as the text that `f32`'s `Display` writes for them
/// (`0.5` as "0.5", `1.0` as "1"), which is all that code generation reads of them.
#[derive(Debug, PartialEq)]
pub enum Expr {
    LiteralStr(String),
    ConstI32(i32),
    ConstF32(String),
    ConstVec2(String, String),
    ConstVec3(String, String, String),
    ConstVec4(String, String, String, String),
    ConstColor(String, String, String, String),
    LocalDefn(DataType, String, Option<Arc<Expr>>),
    Assign(DataType, String, Arc<Expr>),
    RefLocal(DataType, String),
    RefInput(DataType, String),
    RefUniform(DataType, String),
    TypeCast(DataType, Arc<Expr>),
    GetAttr(DataType, Arc<Expr>, &'static str),
    BinOp(DataType, BinOp, Arc<Expr>, Arc<Expr>),
    /// Function call
    FnCall(DataType, &'static str, Vec<Arc<Expr>>),
    /// Overloaded call, meaning we don't know which overload to use yet.
    OvCall(DataType, String, Vec<Arc<Expr>>),
}

/// The mathematical value of an expression tree: texts as character sequences, and the
/// operands of calls as sequences.
pub enum ExprView {
    LiteralStr(Seq<char>),
    ConstI32(i32),
    ConstF32(Seq<char>),
    ConstVec2(Seq<char>, Seq<char>),
    ConstVec3(Seq<char>, Seq<char>, Seq<char>),
    ConstVec4(Seq<char>, Seq<char>, Seq<char>, Seq<char>),
    ConstColor(Seq<char>, Seq<char>, Seq<char>, Seq<char>),
    LocalDefn(DataType, Seq<char>, Option<Box<ExprView>>),
    Assign(DataType, Seq<char>, Box<ExprView>),
    RefLocal(DataType, Seq<char>),
    RefInput(DataType, Seq<char>),
    RefUniform(DataType, Seq<char>),
    TypeCast(DataType, Box<ExprView>),
    GetAttr(DataType, Box<ExprView>, Seq<char>),
    BinOp(DataType, BinOp, Box<ExprView>, Box<ExprView>),
    FnCall(DataType, Seq<char>, Seq<ExprView>),
    OvCall(DataType, Seq<char>, Seq<ExprView>),
}

/// The values of a sequence of shared expressions.
pub open spec fn args_view(s: Seq<Arc<Expr>>) -> Seq<ExprView>
    decreases s,
{
    if s.len() == 0 {
        Seq::empty()
    } else {
        args_view(s.drop_last()).push(s.last().deep_view_of())
    }
}

impl Expr {
    /// The mathematical value of the expression tree.
    pub open spec fn deep_view_of(self) -> ExprView
        decreases self,
    {
        match self {
            Expr::LiteralStr(s) => ExprView::LiteralStr(s@),
            Expr::ConstI32(n) => ExprView::ConstI32(n),
            Expr::ConstF32(f) => ExprView::ConstF32(f@),
            Expr::ConstVec2(x, y) => ExprView::ConstVec2(x@, y@),
            Expr::ConstVec3(x, y, z) => ExprView::ConstVec3(x@, y@, z@),
            Expr::ConstVec4(x, y, z, w) => ExprView::ConstVec4(x@, y@, z@, w@),
            Expr::ConstColor(r, g, b, a) => ExprView::ConstColor(r@, g@, b@, a@),
            Expr::LocalDefn(dt, name, init) => ExprView::LocalDefn(
                dt,
                name@,
                match init {
                    Some(e) => Some(Box::new((*e).deep_view_of())),
                    None => None,
                },
            ),
            Expr::Assign(dt, name, e) => ExprView::Assign(dt, name@, Box::new((*e).deep_view_of())),
            Expr::RefLocal(dt, name) => ExprView::RefLocal(dt, name@),
            Expr::RefInput(dt, name) => ExprView::RefInput(dt, name@),
            Expr::RefUniform(dt, name) => ExprView::RefUniform(dt, name@),
            Expr::TypeCast(dt, e) => ExprView::TypeCast(dt, Box::new((*e).deep_view_of())),
            Expr::GetAttr(dt, e, field) => ExprView::GetAttr(
                dt,
                Box::new((*e).deep_view_of()),
                field@,
            ),
            Expr::BinOp(dt, op, l, r) => ExprView::BinOp(
                dt,
                op,
                Box::new((*l).deep_view_of()),
                Box::new((*r).deep_view_of()),
            ),
            Expr::FnCall(dt, f, args) => ExprView::FnCall(dt, f@, args_view(args@)),
            Expr::OvCall(dt, f, args) => ExprView::OvCall(dt, f@, args_view(args@)),
        }
    }
}

/// The values of a sequence of shared expressions, element by element.
pub proof fn lemma_args_view(s: Seq<Arc<Expr>>)
    ensures
        args_view(s).len() == s.len(),
        forall|i: int| 0 <= i < s.len() ==> #[trigger] args_view(s)[i] == s[i].deep_view_of(),
    decreases s.len(),
{
    if s.len() > 0 {
        lemma_args_view(s.drop_last());
        assert forall|i: int| 0 <= i < s.len() implies #[trigger] args_view(s)[i] == s[i].deep_view_of() by {
            if i < s.len() - 1 {
                assert(s.drop_last()[i] == s[i]);
            }
        }
    }
}

impl View for Expr {
    type V = ExprView;

    open spec fn view(&self) -> ExprView {
        self.deep_view_of()
    }
}

impl ExprView {
    /// The data type of the expression's value; a literal string has none.
    pub open spec fn typ(self) -> DataType {
        match self {
            ExprView::LiteralStr(_) => DataType::Void,
            ExprView::ConstI32(_) => DataType::I32,
            ExprView::ConstF32(_) => DataType::F32,
            ExprView::ConstVec2(..) => DataType::Vec2,
            ExprView::ConstVec3(..) => DataType::Vec3,
            ExprView::ConstVec4(..) => DataType::Vec4,
            ExprView::ConstColor(..) => DataType::Vec4,
            ExprView::LocalDefn(dt, _, _) => dt,
            ExprView::Assign(_, _, _) => DataType::Void,
            ExprView::RefLocal(dt, _) => dt,
            ExprView::RefInput(dt, _) => dt,
            ExprView::RefUniform(dt, _) => dt,
            ExprView::TypeCast(dt, _) => dt,
            ExprView::GetAttr(dt, _, _) => dt,
            ExprView::BinOp(dt, _, _, _) => dt,
            ExprView::FnCall(dt, _, _) => dt,
            ExprView::OvCall(dt, _, _) => dt,
        }
    }
}

impl Expr {
    /// The data type of the expression's value.
    pub fn typ(&self) -> (res: DataType)
        requires
            !(self is LiteralStr),
        ensures
            res == self@.typ(),
    {
        match self {
            Expr::LiteralStr(_) => DataType::Void,
            Expr::ConstI32(_) => DataType::I32,
            Expr::ConstF32(_) => DataType::F32,
            Expr::ConstVec2(..) => DataType::Vec2,
            Expr::ConstVec3(..) => DataType::Vec3,
            Expr::ConstVec4(..) => DataType::Vec4,
            Expr::ConstColor(..) => DataType::Vec4,
            Expr::LocalDefn(dt, _, _) => *dt,
            Expr::Assign(_, _, _) => DataType::Void,
            Expr::RefLocal(dt, _) => *dt,
            Expr::RefInput(dt, _) => *dt,
            Expr::RefUniform(dt, _) => *dt,
            Expr::TypeCast(dt, _) => *dt,
            Expr::GetAttr(dt, _, _) => *dt,
            Expr::BinOp(dt, _, _, _) => *dt,
            Expr::FnCall(dt, _, _) => *dt,
            Expr::OvCall(dt, _, _) => *dt,
        }
    }

    /// The expression converted to the data type `dt`: itself if it already has that type,
    /// else wrapped in a type cast.
    pub fn cast(&self, dt: DataType) -> (res: Expr)
        requires
            !(self is LiteralStr),
        ensures
            res@ == if self@.typ() == dt {
                self@
            } else {
                ExprView::TypeCast(dt, Box::new(self@))
            },
    {
        if self.typ() == dt {
            self.clone()
        } else {
            Expr::TypeCast(dt, Arc::new(self.clone()))
        }
    }
}

/// Copies the elements of a vector of shared expressions.
fn clone_args(v: &Vec<Arc<Expr>>) -> (res: Vec<Arc<Expr>>)
    ensures
        res@ == v@,
{
    let mut res: Vec<Arc<Expr>> = Vec::new();
    let mut i: usize = 0;
    while i < v.len()
        invariant
            i <= v.len(),
            res@ == v@.take(i as int),
        decreases v.len() - i,
    {
        res.push(v[i].clone());
        proof {
            assert(res@ =~= v@.take(i + 1));
        }
        i += 1;
    }
    proof {
        assert(v@.take(v.len() as int) =~= v@);
    }
    res
}

impl Clone for Expr {
    fn clone(&self) -> (res: Self)
        ensures
            res@ == self@,
    {
        match self {
            Expr::LiteralStr(s) => Expr::LiteralStr(s.clone()),
            Expr::ConstI32(n) => Expr::ConstI32(*n),
            Expr::ConstF32(f) => Expr::ConstF32(f.clone()),
            Expr::ConstVec2(x, y) => Expr::ConstVec2(x.clone(), y.clone()),
            Expr::ConstVec3(x, y, z) => Expr::ConstVec3(x.clone(), y.clone(), z.clone()),
            Expr::ConstVec4(x, y, z, w) => Expr::ConstVec4(x.clone(), y.clone(), z.clone(), w.clone()),
            Expr::ConstColor(r, g, b, a) => Expr::ConstColor(r.clone(), g.clone(), b.clone(), a.clone()),
            Expr::LocalDefn(dt, name, init) => {
                let init2 = match init {
                    Some(e) => Some(e.clone()),
                    None => None,
                };
                Expr::LocalDefn(*dt, name.clone(), init2)
            },
            Expr::Assign(dt, name, e) => Expr::Assign(*dt, name.clone(), e.clone()),
            Expr::RefLocal(dt, name) => Expr::RefLocal(*dt, name.clone()),
            Expr::RefInput(dt, name) => Expr::RefInput(*dt, name.clone()),
            Expr::RefUniform(dt, name) => Expr::RefUniform(*dt, name.clone()),
            Expr::TypeCast(dt, e) => Expr::TypeCast(*dt, e.clone()),
            Expr::GetAttr(dt, e, field) => Expr::GetAttr(*dt, e.clone(), field),
            Expr::BinOp(dt, op, l, r) => Expr::BinOp(*dt, *op, l.clone(), r.clone()),
            Expr::FnCall(dt, f, args) => Expr::FnCall(*dt, f, clone_args(args)),
            Expr::OvCall(dt, f, args) => Expr::OvCall(*dt, f.clone(), clone_args(args)),
        }
    }
}

/// A vector constant of n components has the n-component vector type, and a color constant
/// the four-component one.
pub proof fn lemma_vector_constant_types(x: Seq<char>, y: Seq<char>, z: Seq<char>, w: Seq<char>)
    ensures
        ExprView::ConstVec2(x, y).typ() == DataType::Vec2,
        ExprView::ConstVec3(x, y, z).typ() == DataType::Vec3,
        ExprView::ConstVec4(x, y, z, w).typ() == DataType::Vec4,
        ExprView::ConstColor(x, y, z, w).typ() == DataType::Vec4,
{
}

} // verus!
