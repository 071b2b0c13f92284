use std::fmt::Error;
use vstd::prelude::*;

verus! {

/// Number of spaces per indentation level.
pub const INDENT_SIZE: usize = 4;

/// Struct which keeps track of the current line length and indentation level, and can break lines.
#[derive(Debug, Clone, Copy, PartialEq, Eq)]
pub struct LineWrapping {
    /// The current length of the current line.
    pub line_length: usize,
    /// The maximum length of a line before it should be wrapped.
    pub max_line_length: usize,
    /// The current indentation level. Each indent level is `INDENT_SIZE` spaces.
    pub current_line_indent: usize,
    /// The indentation level to be used for the next line.
    pub next_line_indent: usize,
}

impl LineWrapping {
    pub fn new(max_line_length: usize) -> (res: Self)
        ensures
            res.line_length == 0,
            res.max_line_length == max_line_length,
            res.current_line_indent == 0,
            res.next_line_indent == 0,
    {
        LineWrapping { line_length: 0, max_line_length, current_line_indent: 0, next_line_indent: 0 }
    }

    /// Increase the indentation of the current line by one level, up to 16 levels.
    pub fn indent(&mut self)
        ensures
            final(self).current_line_indent == if old(self).current_line_indent < 16 {
                old(self).current_line_indent + 1
            } else {
                old(self).current_line_indent as int
            },
            final(self).line_length == old(self).line_length,
            final(self).max_line_length == old(self).max_line_length,
            final(self).next_line_indent == old(self).next_line_indent,
    {
        if self.current_line_indent < 16 {
            self.current_line_indent += 1;
        }
    }

    /// Writes a line break, and the indentation of the next line, which becomes the current one.
    pub fn break_line(&mut self, out: &mut String) -> (res: Result<(), Error>)
        requires
            old(self).next_line_indent * INDENT_SIZE <= usize::MAX,
        ensures
            res is Ok,
            final(out)@ == old(out)@ + break_text(*old(self)),
            *final(self) == after_break(*old(self)),
    {
        proof {
            reveal_strlit("\n");
            reveal_strlit(" ");
            assert(" "@ =~= seq![' ']);
            assert("\n"@ =~= seq!['\n']);
        }
        out.append("\n");
        self.current_line_indent = self.next_line_indent;
        let n = self.current_line_indent * INDENT_SIZE;
        let mut i: usize = 0;
        while i < n
            invariant
                i <= n,
                n == old(self).next_line_indent * 4,
                out@ == old(out)@ + seq!['\n'] + spaces(i as nat),
            decreases n - i,
        {
            out.append(" ");
            proof {
                reveal_strlit(" ");
                assert(" "@ =~= seq![' ']);
                assert(out@ =~= old(out)@ + seq!['\n'] + spaces((i + 1) as nat));
            }
            i += 1;
        }
        self.line_length = n;
        proof {
            assert(out@ =~= old(out)@ + break_text(*old(self)));
        }
        Ok(())
    }

    /// Whether a piece of text of `length` characters fits on the current line. The
    /// indentation is added to `line_length`, so after a line break, where `line_length`
    /// already holds the written indentation, that indentation is counted twice, which makes
    /// lines break earlier than the limit alone asks.
    pub fn can_fit(&self, length: usize) -> (res: bool)
        requires
            fit_sum_in_range(*self, length as int),
        ensures
            res == fits_on_line(*self, length as int),
    {
        self.current_line_indent * INDENT_SIZE + self.line_length + length < self.max_line_length
    }
}


/// Represents a chunk of output code with predifined locations for line-breaking / wrapping.
#[derive(Debug, PartialEq)]
pub enum OutputChunk {
    /// A literal string.
    Literal(String),
    /// A literal string (static).
    Str(&'static str),
    /// A sequence of chunks which are concatenated together with no separators or spaces.
    Concat(Vec<OutputChunk>),
    /// A sequence of comma-separated expressions, surrounded by parentheses.
    Parens(Vec<OutputChunk>),
    /// A sequence of comma-separated expressions, surrounded by brackets.
    Brackets(Vec<OutputChunk>),
    /// A statement block.
    Stmt(Vec<OutputChunk>),
    /// A return statement.
    Ret(Vec<OutputChunk>),
    /// An infix operator.
    Infix { oper: String, precedence: usize, args: Vec<OutputChunk> },
    /// A function call.
    FCall { func: String, args: Vec<OutputChunk> },
}

/// Sum of the lengths of a sequence of chunks.
pub open spec fn sum_length(s: Seq<OutputChunk>) -> int
    decreases s,
{
    if s.len() == 0 {
        0
    } else {
        sum_length(s.drop_last()) + s.last().spec_length()
    }
}

impl OutputChunk {
    /// The total length, in characters, of this chunk and all its descendants.
    pub open spec fn spec_length(self) -> int
        decreases self,
    {
        match self {
            OutputChunk::Literal(s) => s@.len() as int,
            OutputChunk::Str(s) => s@.len() as int,
            OutputChunk::Concat(v) => sum_length(v@),
            OutputChunk::Parens(v) | OutputChunk::Brackets(v) => if v.len() == 0 {
                2
            } else {
                2 + 2 * (v.len() - 1) + sum_length(v@)
            },
            OutputChunk::Stmt(v) => if v.len() == 0 {
                1
            } else {
                1 + (v.len() - 1) + sum_length(v@)
            },
            OutputChunk::Ret(v) => 7 + sum_length(v@) + 1,
            OutputChunk::Infix { oper, precedence, args } => sum_length(args@) + (args.len() - 1) * (
            oper@.len() + 2),
            OutputChunk::FCall { func, args } => if args.len() == 0 {
                func@.len() + 2int
            } else {
                func@.len() + sum_length(args@) + 2 * args.len()
            },
        }
    }
}


/// Every `Infix` node in the sequence's trees has at least one operand.
pub open spec fn all_length_defined(s: Seq<OutputChunk>) -> bool
    decreases s,
{
    if s.len() == 0 {
        true
    } else {
        all_length_defined(s.drop_last()) && s.last().length_defined()
    }
}

/// The chunks' flat texts, one after the other.
pub open spec fn concat_flat(s: Seq<OutputChunk>) -> Seq<char>
    decreases s,
{
    if s.len() == 0 {
        Seq::empty()
    } else {
        concat_flat(s.drop_last()) + s.last().flat()
    }
}

/// The chunks' flat texts, with `sep` between each two neighbours.
pub open spec fn join_flat(s: Seq<OutputChunk>, sep: Seq<char>) -> Seq<char>
    decreases s,
{
    if s.len() == 0 {
        Seq::empty()
    } else if s.len() == 1 {
        s[0].flat()
    } else {
        join_flat(s.drop_last(), sep) + sep + s.last().flat()
    }
}

impl OutputChunk {
    /// The length is defined: no `Infix` node of the tree is without operands.
    pub open spec fn length_defined(self) -> bool
        decreases self,
    {
        match self {
            OutputChunk::Literal(_) | OutputChunk::Str(_) => true,
            OutputChunk::Concat(v) | OutputChunk::Parens(v) | OutputChunk::Brackets(v)
            | OutputChunk::Stmt(v) | OutputChunk::Ret(v) => all_length_defined(v@),
            OutputChunk::Infix { oper, precedence, args } => args.len() > 0 && all_length_defined(
                args@,
            ),
            OutputChunk::FCall { func, args } => all_length_defined(args@),
        }
    }

    /// The head length is defined: the chain of first children it follows ends at a chunk
    /// that has a head of its own.
    pub open spec fn head_defined(self) -> bool
        decreases self,
    {
        match self {
            OutputChunk::Concat(v) | OutputChunk::Stmt(v) => v.len() > 0 && v@[0].head_defined(),
            OutputChunk::Infix { oper, precedence, args } => args.len() > 0
                && args@[0].head_defined(),
            _ => true,
        }
    }

    /// The number of characters before the first line-break point.
    pub open spec fn spec_head_length(self) -> int
        decreases self,
    {
        match self {
            OutputChunk::Literal(s) => s@.len() as int,
            OutputChunk::Str(s) => s@.len() as int,
            OutputChunk::Concat(v) | OutputChunk::Stmt(v) => if v.len() > 0 {
                v@[0].spec_head_length()
            } else {
                0
            },
            OutputChunk::Parens(_) | OutputChunk::Brackets(_) => 1,
            OutputChunk::Ret(_) => 6,
            OutputChunk::Infix { oper, precedence, args } => if args.len() > 0 {
                args@[0].spec_head_length()
            } else {
                0
            },
            OutputChunk::FCall { func, args } => func@.len() + 1int,
        }
    }

    /// The text of this chunk and its descendants on one line, with no line breaks.
    pub open spec fn flat(self) -> Seq<char>
        decreases self,
    {
        match self {
            OutputChunk::Literal(s) => s@,
            OutputChunk::Str(s) => s@,
            OutputChunk::Concat(v) => concat_flat(v@),
            OutputChunk::Parens(v) => seq!['('] + join_flat(v@, seq![',', ' ']) + seq![')'],
            OutputChunk::Brackets(v) => seq!['['] + join_flat(v@, seq![',', ' ']) + seq![']'],
            OutputChunk::Stmt(v) => join_flat(v@, seq![' ']) + seq![';'],
            OutputChunk::Ret(v) => seq!['r', 'e', 't', 'u', 'r', 'n', ' '] + concat_flat(v@) + seq![
                ';',
            ],
            OutputChunk::Infix { oper, precedence, args } => join_flat(
                args@,
                seq![' '] + oper@ + seq![' '],
            ),
            OutputChunk::FCall { func, args } => func@ + seq!['('] + join_flat(args@, seq![',', ' '])
                + seq![')'],
        }
    }
}


/// `std::fmt::Error`, the error of a failed write; writing to a `String` never fails.
#[verifier::external_type_specification]
#[verifier::external_body]
pub struct ExFmtError(Error);

/// `all_length_defined` holds of a sequence exactly when it holds of each element.
pub proof fn lemma_all_length_defined(s: Seq<OutputChunk>)
    ensures
        all_length_defined(s) <==> forall|i: int| 0 <= i < s.len() ==> #[trigger] s[i].length_defined(),
    decreases s.len(),
{
    if s.len() > 0 {
        lemma_all_length_defined(s.drop_last());
        if all_length_defined(s) {
            assert forall|i: int| 0 <= i < s.len() implies #[trigger] s[i].length_defined() by {
                if i < s.len() - 1 {
                    assert(s.drop_last()[i] == s[i]);
                    assert(s.drop_last()[i].length_defined());
                } else {
                    assert(s.last() == s[i]);
                }
            }
        }
        if forall|i: int| 0 <= i < s.len() ==> #[trigger] s[i].length_defined() {
            assert forall|i: int| 0 <= i < s.len() - 1 implies #[trigger] s.drop_last()[i].length_defined() by {
                assert(s.drop_last()[i] == s[i]);
                assert(s[i].length_defined());
            }
            assert(s.last() == s[s.len() - 1]);
            assert(s[s.len() - 1].length_defined());
        }
    }
}

/// A chunk whose length is defined has a length of at least zero.
proof fn lemma_length_nonneg(c: OutputChunk)
    requires
        c.length_defined(),
    ensures
        c.spec_length() >= 0,
    decreases c,
{
    match c {
        OutputChunk::Literal(_) | OutputChunk::Str(_) => {},
        OutputChunk::Concat(v) | OutputChunk::Parens(v) | OutputChunk::Brackets(v)
        | OutputChunk::Stmt(v) | OutputChunk::Ret(v) => {
            lemma_sum_length_nonneg(v@);
        },
        OutputChunk::Infix { oper, precedence, args } => {
            lemma_sum_length_nonneg(args@);
            assert((args.len() - 1) * (oper@.len() + 2) >= 0) by (nonlinear_arith)
                requires
                    args.len() >= 1,
            ;
        },
        OutputChunk::FCall { func, args } => {
            lemma_sum_length_nonneg(args@);
        },
    }
}

/// The summed length of chunks whose lengths are defined is at least zero.
proof fn lemma_sum_length_nonneg(s: Seq<OutputChunk>)
    requires
        all_length_defined(s),
    ensures
        sum_length(s) >= 0,
    decreases s,
{
    if s.len() > 0 {
        lemma_sum_length_nonneg(s.drop_last());
        lemma_length_nonneg(s.last());
    }
}

/// The summed length of a prefix is at most the summed length of the whole sequence, and
/// the prefix grows by the length of the next element.
proof fn lemma_sum_length_take(s: Seq<OutputChunk>, i: int)
    requires
        all_length_defined(s),
        0 <= i <= s.len(),
    ensures
        sum_length(s.take(i)) <= sum_length(s),
        i < s.len() ==> sum_length(s.take(i + 1)) == sum_length(s.take(i)) + s[i].spec_length(),
    decreases s.len(),
{
    if i < s.len() {
        assert(s.take(i + 1).drop_last() =~= s.take(i));
        lemma_sum_length_take(s.drop_last(), i);
        assert(s.drop_last().take(i) =~= s.take(i));
        lemma_length_nonneg(s.last());
    } else {
        assert(s.take(i) =~= s);
    }
}

/// Sum of the lengths of the chunks.
fn sum_lengths(chunks: &Vec<OutputChunk>) -> (res: usize)
    requires
        all_length_defined(chunks@),
        sum_length(chunks@) <= usize::MAX,
    ensures
        res == sum_length(chunks@),
    decreases chunks,
{
    let mut total: usize = 0;
    let mut i: usize = 0;
    proof {
        lemma_all_length_defined(chunks@);
        assert(chunks@.take(0) =~= Seq::<OutputChunk>::empty());
    }
    while i < chunks.len()
        invariant
            i <= chunks.len(),
            total == sum_length(chunks@.take(i as int)),
            all_length_defined(chunks@),
            forall|k: int| 0 <= k < chunks.len() ==> #[trigger] chunks@[k].length_defined(),
            sum_length(chunks@) <= usize::MAX,
        decreases chunks.len() - i,
    {
        proof {
            lemma_sum_length_take(chunks@, i + 1);
            lemma_sum_length_take(chunks@, i as int);
            assert(decreases_to!(chunks => chunks@[i as int]));
        }
        let l = chunks[i].length();
        total = total + l;
        i += 1;
    }
    proof {
        assert(chunks@.take(chunks.len() as int) =~= chunks@);
    }
    total
}

impl OutputChunk {
    /// The total length, in characters, of this chunk and all its descendants.
    pub fn length(&self) -> (res: usize)
        requires
            self.length_defined(),
            self.spec_length() <= usize::MAX,
        ensures
            res == self.spec_length(),
        decreases self,
    {
        match self {
            OutputChunk::Literal(s) => {
                let t: &str = s.as_str();
                t.unicode_len()
            },
            OutputChunk::Str(s) => s.unicode_len(),
            OutputChunk::Concat(chunks) => sum_lengths(chunks),
            OutputChunk::Parens(chunks) | OutputChunk::Brackets(chunks) => {
                if chunks.len() == 0 {
                    2
                } else {
                    proof {
                        lemma_sum_length_nonneg(chunks@);
                    }
                    2 + 2 * (chunks.len() - 1) + sum_lengths(chunks)
                }
            },
            OutputChunk::Stmt(chunks) => {
                if chunks.len() == 0 {
                    1
                } else {
                    proof {
                        lemma_sum_length_nonneg(chunks@);
                    }
                    1 + (chunks.len() - 1) + sum_lengths(chunks)
                }
            },
            OutputChunk::Ret(chunks) => {
                proof {
                    lemma_sum_length_nonneg(chunks@);
                }
                7 + sum_lengths(chunks) + 1
            },
            OutputChunk::Infix { oper, args, precedence: _ } => {
                proof {
                    lemma_sum_length_nonneg(args@);
                }
                let sum = sum_lengths(args);
                let n = args.len() - 1;
                if n == 0 {
                    proof {
                        assert((args.len() - 1) * (oper@.len() + 2) == 0) by (nonlinear_arith)
                            requires
                                args.len() == 1,
                        ;
                    }
                    sum
                } else {
                    let oper_len = oper.as_str().unicode_len();
                    proof {
                        assert(n * (oper_len + 2) >= oper_len + 2) by (nonlinear_arith)
                            requires
                                n >= 1,
                        ;
                    }
                    sum + n * (oper_len + 2)
                }
            },
            OutputChunk::FCall { func, args } => {
                proof {
                    lemma_sum_length_nonneg(args@);
                }
                if args.len() == 0 {
                    func.as_str().unicode_len() + 2
                } else {
                    func.as_str().unicode_len() + sum_lengths(args) + 2 * args.len()
                }
            },
        }
    }

    /// The number of characters before the first line-break point.
    pub fn head_length(&self) -> (res: usize)
        requires
            self.head_defined(),
            self.spec_head_length() <= usize::MAX,
        ensures
            res == self.spec_head_length(),
        decreases self,
    {
        match self {
            OutputChunk::Literal(s) => {
                let t: &str = s.as_str();
                t.unicode_len()
            },
            OutputChunk::Str(s) => s.unicode_len(),
            OutputChunk::Concat(chunks) => chunks[0].head_length(),
            OutputChunk::Parens(_) => 1,
            OutputChunk::Brackets(_) => 1,
            OutputChunk::Stmt(chunks) => chunks[0].head_length(),
            OutputChunk::Ret(_) => 6,
            OutputChunk::Infix { oper: _, args, precedence: _ } => args[0].head_length(),
            OutputChunk::FCall { func, args: _ } => func.as_str().unicode_len() + 1,
        }
    }
}


/// Taking one more element appends that element's flat text.
proof fn lemma_concat_flat_take(s: Seq<OutputChunk>, i: int)
    requires
        0 <= i < s.len(),
    ensures
        concat_flat(s.take(i + 1)) == concat_flat(s.take(i)) + s[i].flat(),
{
    assert(s.take(i + 1).drop_last() =~= s.take(i));
}

/// Taking one more element appends the separator (unless it is the first) and that element's
/// flat text.
proof fn lemma_join_flat_take(s: Seq<OutputChunk>, sep: Seq<char>, i: int)
    requires
        0 <= i < s.len(),
    ensures
        join_flat(s.take(i + 1), sep) == if i == 0 {
            s[0].flat()
        } else {
            join_flat(s.take(i), sep) + sep + s[i].flat()
        },
{
    assert(s.take(i + 1).drop_last() =~= s.take(i));
    assert(s.take(i + 1)[0] == s[0]);
}

/// Writes the flat texts of the chunks, one after the other.
fn write_concat(chunks: &Vec<OutputChunk>, out: &mut String)
    ensures
        final(out)@ == old(out)@ + concat_flat(chunks@),
    decreases chunks,
{
    let mut i: usize = 0;
    proof {
        assert(chunks@.take(0) =~= Seq::<OutputChunk>::empty());
        assert(out@ =~= old(out)@ + concat_flat(chunks@.take(0)));
    }
    while i < chunks.len()
        invariant
            i <= chunks.len(),
            out@ == old(out)@ + concat_flat(chunks@.take(i as int)),
        decreases chunks.len() - i,
    {
        proof {
            lemma_concat_flat_take(chunks@, i as int);
            assert(decreases_to!(chunks => chunks@[i as int]));
        }
        let _ = chunks[i].flatten(out);
        i += 1;
    }
    proof {
        assert(chunks@.take(chunks.len() as int) =~= chunks@);
    }
}

/// Writes the flat texts of the chunks, with `sep` between each two neighbours.
fn write_joined(chunks: &Vec<OutputChunk>, sep: &str, out: &mut String)
    ensures
        final(out)@ == old(out)@ + join_flat(chunks@, sep@),
    decreases chunks,
{
    let mut i: usize = 0;
    proof {
        assert(chunks@.take(0) =~= Seq::<OutputChunk>::empty());
        assert(out@ =~= old(out)@ + join_flat(chunks@.take(0), sep@));
    }
    while i < chunks.len()
        invariant
            i <= chunks.len(),
            out@ == old(out)@ + join_flat(chunks@.take(i as int), sep@),
        decreases chunks.len() - i,
    {
        proof {
            lemma_join_flat_take(chunks@, sep@, i as int);
            assert(decreases_to!(chunks => chunks@[i as int]));
        }
        if i > 0 {
            out.append(sep);
        }
        let _ = chunks[i].flatten(out);
        proof {
            assert(out@ =~= old(out)@ + join_flat(chunks@.take(i + 1), sep@));
        }
        i += 1;
    }
    proof {
        assert(chunks@.take(chunks.len() as int) =~= chunks@);
    }
}

impl OutputChunk {
    /// Convert this chunk and it's descendants into a flat string, with no line breaks.
    pub fn flatten(&self, out: &mut String) -> (res: Result<(), Error>)
        ensures
            res is Ok,
            final(out)@ == old(out)@ + self.flat(),
        decreases self,
    {
        proof {
            reveal_strlit("(");
            reveal_strlit(")");
            reveal_strlit("[");
            reveal_strlit("]");
            reveal_strlit(", ");
            reveal_strlit(" ");
            reveal_strlit(";");
            reveal_strlit("return ");
            assert(", "@ =~= seq![',', ' ']);
            assert(" "@ =~= seq![' ']);
        }
        match self {
            OutputChunk::Literal(s) => out.append(s.as_str()),
            OutputChunk::Str(s) => out.append(s),
            OutputChunk::Concat(chunks) => write_concat(chunks, out),
            OutputChunk::Parens(chunks) => {
                out.append("(");
                write_joined(chunks, ", ", out);
                out.append(")");
            },
            OutputChunk::Brackets(chunks) => {
                out.append("[");
                write_joined(chunks, ", ", out);
                out.append("]");
            },
            OutputChunk::Stmt(chunks) => {
                write_joined(chunks, " ", out);
                out.append(";");
                assert(out@ =~= old(out)@ + self.flat());
            },
            OutputChunk::Ret(chunks) => {
                out.append("return ");
                write_concat(chunks, out);
                out.append(";");
                assert(out@ =~= old(out)@ + self.flat());
            },
            OutputChunk::Infix { oper, args, precedence: _ } => {
                let mut sep = String::from_str(" ");
                sep.append(oper.as_str());
                sep.append(" ");
                assert(sep@ =~= seq![' '] + oper@ + seq![' ']);
                write_joined(args, sep.as_str(), out);
                assert(out@ =~= old(out)@ + self.flat());
            },
            OutputChunk::FCall { func, args } => {
                out.append(func.as_str());
                out.append("(");
                write_joined(args, ", ", out);
                out.append(")");
            },
        }
        proof {
            assert(out@ =~= old(out)@ + self.flat());
        }
        Ok(())
    }
}


/// The flat text of the chunks, one after the other, is as long as their summed lengths.
proof fn lemma_concat_flat_len(s: Seq<OutputChunk>)
    requires
        all_length_defined(s),
    ensures
        concat_flat(s).len() == sum_length(s),
    decreases s,
{
    if s.len() > 0 {
        lemma_concat_flat_len(s.drop_last());
        lemma_flat_length(s.last());
    }
}

/// The joined flat text of the chunks is as long as their summed lengths plus one separator
/// between each two neighbours.
proof fn lemma_join_flat_len(s: Seq<OutputChunk>, sep: Seq<char>)
    requires
        all_length_defined(s),
    ensures
        s.len() == 0 ==> join_flat(s, sep).len() == 0,
        s.len() > 0 ==> join_flat(s, sep).len() == sum_length(s) + (s.len() - 1) * sep.len(),
    decreases s,
{
    if s.len() == 1 {
        assert(s.drop_last().len() == 0);
        assert(s.last() == s[0]);
        assert(sum_length(s.drop_last()) == 0);
        lemma_flat_length(s[0]);
        assert((s.len() - 1) * sep.len() == 0) by (nonlinear_arith)
            requires
                s.len() == 1,
        ;
    } else if s.len() > 1 {
        lemma_join_flat_len(s.drop_last(), sep);
        lemma_flat_length(s.last());
        let n = s.len();
        let k = sep.len();
        assert((n - 2) * k + k == (n - 1) * k) by (nonlinear_arith);
    }
}

/// The total length of a chunk is the number of characters of its flat text, for every chunk
/// whose length is defined.
pub proof fn lemma_flat_length(c: OutputChunk)
    requires
        c.length_defined(),
    ensures
        c.flat().len() == c.spec_length(),
    decreases c,
{
    match c {
        OutputChunk::Literal(_) | OutputChunk::Str(_) => {},
        OutputChunk::Concat(v) | OutputChunk::Ret(v) => {
            lemma_concat_flat_len(v@);
        },
        OutputChunk::Parens(v) | OutputChunk::Brackets(v) => {
            lemma_join_flat_len(v@, seq![',', ' ']);
            let n = v.len() as int;
            assert(seq![',', ' '].len() == 2);
            assert((n - 1) * 2 == 2 * (n - 1));
        },
        OutputChunk::Stmt(v) => {
            lemma_join_flat_len(v@, seq![' ']);
            let n = v.len() as int;
            assert(seq![' '].len() == 1);
            assert((n - 1) * 1 == n - 1);
        },
        OutputChunk::Infix { oper, precedence, args } => {
            lemma_join_flat_len(args@, seq![' '] + oper@ + seq![' ']);
            assert((seq![' '] + oper@ + seq![' ']).len() == oper@.len() + 2);
        },
        OutputChunk::FCall { func, args } => {
            lemma_join_flat_len(args@, seq![',', ' ']);
            let n = args.len() as int;
            assert(seq![',', ' '].len() == 2);
            assert((n - 1) * 2 == 2 * n - 2);
        },
    }
}

/// The length of the first chunk of a sequence is at most the summed length of the sequence.
proof fn lemma_first_le_sum(s: Seq<OutputChunk>)
    requires
        all_length_defined(s),
        s.len() > 0,
    ensures
        s[0].spec_length() <= sum_length(s),
        s[0].length_defined(),
{
    lemma_sum_length_take(s, 0);
    lemma_sum_length_take(s, 1);
    assert(s.take(0) =~= Seq::<OutputChunk>::empty());
    lemma_all_length_defined(s);
}

/// The head of a chunk (the text before its first line-break point) is no longer than the whole
/// chunk, for every chunk whose head and length are defined.
pub proof fn lemma_head_within_length(c: OutputChunk)
    requires
        c.head_defined(),
        c.length_defined(),
    ensures
        0 <= c.spec_head_length() <= c.spec_length(),
    decreases c,
{
    lemma_length_nonneg(c);
    match c {
        OutputChunk::Concat(v) | OutputChunk::Stmt(v) => {
            lemma_first_le_sum(v@);
            lemma_head_within_length(v@[0]);
            lemma_sum_length_nonneg(v@);
        },
        OutputChunk::Infix { oper, precedence, args } => {
            lemma_first_le_sum(args@);
            lemma_head_within_length(args@[0]);
            lemma_sum_length_nonneg(args@);
            assert((args.len() - 1) * (oper@.len() + 2) >= 0) by (nonlinear_arith)
                requires
                    args.len() >= 1,
            ;
        },
        OutputChunk::Ret(v) | OutputChunk::Parens(v) | OutputChunk::Brackets(v) => {
            lemma_sum_length_nonneg(v@);
        },
        OutputChunk::FCall { func, args } => {
            lemma_sum_length_nonneg(args@);
        },
        _ => {},
    }
}


/// The separators that the chunks of a sequence are formatted with.
#[derive(Clone, Copy)]
pub enum SepKind {
    /// No separator (`Concat`): a line may break between two chunks. Nothing is written between
    /// them, so the line length grows only by what the chunks write; a chunk stays on the line
    /// where its head fits with two columns to spare.
    Glue,
    /// A comma (`Parens`, `Brackets`): a line may break after the opening delimiter or a comma.
    Comma,
    /// A space (`Stmt`): a line may break in place of the space. A chunk stays on the line where
    /// the space and its head fit with one column to spare, and the space then adds one to the
    /// line length.
    Space,
}

/// What formatting has produced so far: the text written, the line-wrapping state, whether
/// every counter stayed within `usize`, and how many line breaks were made.
pub struct FormatState {
    pub out: Seq<char>,
    pub wrap: LineWrapping,
    pub in_range: bool,
    pub breaks: nat,
}

/// `n` spaces.
pub open spec fn spaces(n: nat) -> Seq<char> {
    Seq::new(n, |i: int| ' ')
}

/// Whether a piece of text of `length` characters fits on the current line, counting the
/// current indentation on top of `line_length`.
pub open spec fn fits_on_line(w: LineWrapping, length: int) -> bool {
    w.current_line_indent * 4 + w.line_length + length < w.max_line_length
}

/// Whether the sum that `fits_on_line` compares stays within `usize`.
pub open spec fn fit_sum_in_range(w: LineWrapping, length: int) -> bool {
    w.current_line_indent * 4 + w.line_length + length <= usize::MAX
}

/// The wrapping state with the line length grown by `n`.
pub open spec fn grown(w: LineWrapping, n: int) -> LineWrapping {
    LineWrapping {
        line_length: (w.line_length + n) as usize,
        max_line_length: w.max_line_length,
        current_line_indent: w.current_line_indent,
        next_line_indent: w.next_line_indent,
    }
}

/// The wrapping state after a line break: the new line has the next line's indentation.
pub open spec fn after_break(w: LineWrapping) -> LineWrapping {
    LineWrapping {
        line_length: (w.next_line_indent * 4) as usize,
        max_line_length: w.max_line_length,
        current_line_indent: w.next_line_indent,
        next_line_indent: w.next_line_indent,
    }
}

/// The text of a line break: a newline and the next line's indentation.
pub open spec fn break_text(w: LineWrapping) -> Seq<char> {
    seq!['\n'] + spaces((w.next_line_indent * 4) as nat)
}

/// The wrapping state with the indentation of the next line set to `indent`.
pub open spec fn with_next_indent(w: LineWrapping, indent: int) -> LineWrapping {
    LineWrapping {
        line_length: w.line_length,
        max_line_length: w.max_line_length,
        current_line_indent: w.current_line_indent,
        next_line_indent: indent as usize,
    }
}

/// The wrapping state with the current indentation set back to `indent`.
pub open spec fn with_indent(w: LineWrapping, indent: int) -> LineWrapping {
    LineWrapping {
        line_length: w.line_length,
        max_line_length: w.max_line_length,
        current_line_indent: indent as usize,
        next_line_indent: w.next_line_indent,
    }
}

/// A line break that continues one level deeper than `saved`, from the state `w`; `extra` is
/// what was written on the old line just before it.
pub open spec fn break_deeper(w: LineWrapping, extra: Seq<char>, in_range: bool, saved: int) -> FormatState {
    let v = with_next_indent(w, saved + 1);
    FormatState {
        out: extra + break_text(v),
        wrap: after_break(v),
        in_range: in_range && saved + 1 <= usize::MAX && (saved + 1) * 4 <= usize::MAX,
        breaks: 1,
    }
}

/// What is written before the chunk `c` when it is formatted as an element of a sequence of the
/// given kind, from the state `w`: a separator, or a line break, or nothing. `first` tells
/// whether `c` is the first element.
pub open spec fn separator(kind: SepKind, w: LineWrapping, c: OutputChunk, first: bool, saved: int) -> FormatState {
    let h = c.spec_head_length() + 1;
    let none = FormatState { out: Seq::empty(), wrap: w, in_range: true, breaks: 0 };
    match kind {
        SepKind::Glue => if first {
            none
        } else {
            let ok = h + 1 <= usize::MAX && fit_sum_in_range(w, h + 1);
            if fits_on_line(w, h + 1) {
                FormatState { out: Seq::empty(), wrap: w, in_range: ok, breaks: 0 }
            } else {
                break_deeper(w, Seq::empty(), ok, saved)
            }
        },
        SepKind::Comma => {
            let ok = h <= usize::MAX && fit_sum_in_range(w, h);
            if fits_on_line(w, h) {
                if first {
                    FormatState { out: Seq::empty(), wrap: w, in_range: ok, breaks: 0 }
                } else {
                    FormatState {
                        out: seq![',', ' '],
                        wrap: grown(w, 2),
                        in_range: ok && w.line_length + 2 <= usize::MAX,
                        breaks: 0,
                    }
                }
            } else if first {
                break_deeper(w, Seq::empty(), ok, saved)
            } else {
                break_deeper(grown(w, 1), seq![','], ok && w.line_length + 1 <= usize::MAX, saved)
            }
        },
        SepKind::Space => if first {
            none
        } else {
            let ok = h + 1 <= usize::MAX && fit_sum_in_range(w, h + 1);
            if fits_on_line(w, h + 1) {
                FormatState {
                    out: seq![' '],
                    wrap: grown(w, 1),
                    in_range: ok && w.line_length + 1 <= usize::MAX,
                    breaks: 0,
                }
            } else {
                break_deeper(w, Seq::empty(), ok, saved)
            }
        },
    }
}

/// Formats the chunks of a sequence one after the other, starting from the state `w`; `saved`
/// is the indentation of the line on which the enclosing chunk began.
pub open spec fn format_seq(kind: SepKind, s: Seq<OutputChunk>, w: LineWrapping, saved: int) -> FormatState
    decreases s,
{
    if s.len() == 0 {
        FormatState { out: Seq::empty(), wrap: w, in_range: true, breaks: 0 }
    } else {
        let p = format_seq(kind, s.drop_last(), w, saved);
        let q = separator(kind, p.wrap, s.last(), s.len() == 1, saved);
        let f = s.last().format_state(q.wrap);
        FormatState {
            out: p.out + q.out + f.out,
            wrap: f.wrap,
            in_range: p.in_range && q.in_range && f.in_range,
            breaks: p.breaks + q.breaks + f.breaks,
        }
    }
}

/// The chunks of a sequence can all be formatted; `head_of_first` tells whether the head of
/// the first one is asked for too.
pub open spec fn seq_formattable(s: Seq<OutputChunk>, head_of_first: bool) -> bool
    decreases s,
{
    if s.len() == 0 {
        true
    } else {
        seq_formattable(s.drop_last(), head_of_first) && s.last().formattable() && (
        (s.len() > 1 || head_of_first) ==> s.last().head_defined())
    }
}

impl OutputChunk {
    /// Formatting is defined for this chunk: it holds no return statement, infix operator or
    /// function call, and every chunk whose head is measured has a head.
    pub open spec fn formattable(self) -> bool
        decreases self,
    {
        match self {
            OutputChunk::Literal(_) | OutputChunk::Str(_) => true,
            OutputChunk::Concat(v) | OutputChunk::Stmt(v) => seq_formattable(v@, false),
            OutputChunk::Parens(v) | OutputChunk::Brackets(v) => seq_formattable(v@, true),
            _ => false,
        }
    }

    /// The result of formatting this chunk, starting from the wrapping state `w`.
    pub open spec fn format_state(self, w: LineWrapping) -> FormatState
        decreases self,
    {
        let saved = w.current_line_indent as int;
        match self {
            OutputChunk::Literal(s) => FormatState {
                out: s@,
                wrap: grown(w, s@.len() as int),
                in_range: w.line_length + s@.len() <= usize::MAX,
                breaks: 0,
            },
            OutputChunk::Str(s) => FormatState {
                out: s@,
                wrap: grown(w, s@.len() as int),
                in_range: w.line_length + s@.len() <= usize::MAX,
                breaks: 0,
            },
            OutputChunk::Concat(v) => {
                let r = format_seq(SepKind::Glue, v@, w, saved);
                FormatState { wrap: with_indent(r.wrap, saved), ..r }
            },
            OutputChunk::Stmt(v) => {
                let r = format_seq(SepKind::Space, v@, w, saved);
                FormatState { wrap: with_indent(r.wrap, saved), ..r }
            },
            OutputChunk::Parens(v) | OutputChunk::Brackets(v) => {
                let (open, close) = if self is Parens {
                    ('(', ')')
                } else {
                    ('[', ']')
                };
                let r = format_seq(SepKind::Comma, v@, grown(w, 1), saved);
                FormatState {
                    out: seq![open] + r.out + seq![close],
                    wrap: with_indent(grown(r.wrap, 1), saved),
                    in_range: w.line_length + 1 <= usize::MAX && r.in_range && r.wrap.line_length
                        + 1 <= usize::MAX,
                    breaks: r.breaks,
                }
            },
            _ => FormatState { out: Seq::empty(), wrap: w, in_range: false, breaks: 0 },
        }
    }
}


/// Formatting every prefix of a sequence stays within range when formatting the whole does.
proof fn lemma_format_seq_prefix(kind: SepKind, s: Seq<OutputChunk>, w: LineWrapping, saved: int, i: int)
    requires
        0 <= i <= s.len(),
        format_seq(kind, s, w, saved).in_range,
    ensures
        format_seq(kind, s.take(i), w, saved).in_range,
    decreases s.len(),
{
    if i < s.len() {
        assert(s.drop_last().take(i) =~= s.take(i));
        lemma_format_seq_prefix(kind, s.drop_last(), w, saved, i);
    } else {
        assert(s.take(i) =~= s);
    }
}

/// Formatting one more element: the state of the longer prefix in terms of the shorter one.
proof fn lemma_format_seq_take(kind: SepKind, s: Seq<OutputChunk>, w: LineWrapping, saved: int, i: int)
    requires
        0 <= i < s.len(),
    ensures
        ({
            let p = format_seq(kind, s.take(i), w, saved);
            let q = separator(kind, p.wrap, s[i], i == 0, saved);
            let f = s[i].format_state(q.wrap);
            format_seq(kind, s.take(i + 1), w, saved) == FormatState {
                out: p.out + q.out + f.out,
                wrap: f.wrap,
                in_range: p.in_range && q.in_range && f.in_range,
                breaks: p.breaks + q.breaks + f.breaks,
            }
        }),
{
    assert(s.take(i + 1).drop_last() =~= s.take(i));
    assert(s.take(i + 1).last() == s[i]);
}

/// Each element of a formattable sequence is formattable, and has a head where one is asked for.
proof fn lemma_seq_formattable(s: Seq<OutputChunk>, head_of_first: bool)
    requires
        seq_formattable(s, head_of_first),
    ensures
        forall|i: int| 0 <= i < s.len() ==> #[trigger] s[i].formattable(),
        forall|i: int| 0 <= i < s.len() && (i > 0 || head_of_first) ==> #[trigger] s[i].head_defined(),
    decreases s.len(),
{
    if s.len() > 0 {
        lemma_seq_formattable(s.drop_last(), head_of_first);
        assert forall|i: int| 0 <= i < s.len() implies #[trigger] s[i].formattable() by {
            if i < s.len() - 1 {
                assert(s.drop_last()[i] == s[i]);
            } else {
                assert(s.last() == s[i]);
            }
        }
        assert forall|i: int| 0 <= i < s.len() && (i > 0 || head_of_first) implies #[trigger] s[i].head_defined() by {
            if i < s.len() - 1 {
                assert(s.drop_last()[i] == s[i]);
            } else {
                assert(s.last() == s[i]);
            }
        }
    }
}

/// Writes what comes before `chunk` as an element of a sequence of the given kind.
fn write_separator(
    kind: SepKind,
    chunk: &OutputChunk,
    first: bool,
    out: &mut String,
    wrap: &mut LineWrapping,
    saved: usize,
)
    requires
        (!first || kind is Comma) ==> chunk.head_defined(),
        separator(kind, *old(wrap), *chunk, first, saved as int).in_range,
    ensures
        final(out)@ == old(out)@ + separator(kind, *old(wrap), *chunk, first, saved as int).out,
        *final(wrap) == separator(kind, *old(wrap), *chunk, first, saved as int).wrap,
{
    proof {
        reveal_strlit(", ");
        reveal_strlit(",");
        reveal_strlit(" ");
    }
    match kind {
        SepKind::Glue => {
            if !first {
                let h = chunk.head_length();
                if !wrap.can_fit(h + 2) {
                    wrap.next_line_indent = saved + 1;
                    let _ = wrap.break_line(out);
                }
            }
        },
        SepKind::Comma => {
            let h = chunk.head_length();
            if wrap.can_fit(h + 1) {
                if !first {
                    wrap.line_length += 2;
                    out.append(", ");
                }
            } else {
                if !first {
                    wrap.line_length += 1;
                    out.append(",");
                }
                wrap.next_line_indent = saved + 1;
                let _ = wrap.break_line(out);
            }
        },
        SepKind::Space => {
            if !first {
                let h = chunk.head_length();
                if wrap.can_fit(h + 2) {
                    wrap.line_length += 1;
                    out.append(" ");
                } else {
                    wrap.next_line_indent = saved + 1;
                    let _ = wrap.break_line(out);
                }
            }
        },
    }
    proof {
        assert(out@ =~= old(out)@ + separator(kind, *old(wrap), *chunk, first, saved as int).out);
    }
}

/// Formats the chunks of a sequence, with the separators and line breaks of its kind.
fn format_children(
    kind: SepKind,
    chunks: &Vec<OutputChunk>,
    out: &mut String,
    wrap: &mut LineWrapping,
    saved: usize,
)
    requires
        seq_formattable(chunks@, kind is Comma),
        format_seq(kind, chunks@, *old(wrap), saved as int).in_range,
    ensures
        final(out)@ == old(out)@ + format_seq(kind, chunks@, *old(wrap), saved as int).out,
        *final(wrap) == format_seq(kind, chunks@, *old(wrap), saved as int).wrap,
    decreases chunks,
{
    let ghost w0 = *wrap;
    let ghost o0 = out@;
    proof {
        lemma_seq_formattable(chunks@, kind is Comma);
        assert(chunks@.take(0) =~= Seq::<OutputChunk>::empty());
        assert(out@ =~= o0 + format_seq(kind, chunks@.take(0), w0, saved as int).out);
    }
    let mut i: usize = 0;
    while i < chunks.len()
        invariant
            i <= chunks.len(),
            format_seq(kind, chunks@, w0, saved as int).in_range,
            forall|k: int| 0 <= k < chunks.len() ==> #[trigger] chunks@[k].formattable(),
            forall|k: int|
                0 <= k < chunks.len() && (k > 0 || kind is Comma) ==> #[trigger] chunks@[k].head_defined(),
            out@ == o0 + format_seq(kind, chunks@.take(i as int), w0, saved as int).out,
            *wrap == format_seq(kind, chunks@.take(i as int), w0, saved as int).wrap,
        decreases chunks.len() - i,
    {
        let ghost p = format_seq(kind, chunks@.take(i as int), w0, saved as int);
        let ghost q = separator(kind, p.wrap, chunks@[i as int], i == 0, saved as int);
        proof {
            lemma_format_seq_take(kind, chunks@, w0, saved as int, i as int);
            lemma_format_seq_prefix(kind, chunks@, w0, saved as int, i + 1);
            assert(decreases_to!(chunks => chunks@[i as int]));
        }
        let chunk = &chunks[i];
        proof {
            assert(chunks@[i as int].formattable());
        }
        write_separator(kind, chunk, i == 0, out, wrap, saved);
        proof {
            assert(out@ =~= o0 + p.out + q.out);
            assert(*wrap == q.wrap);
        }
        let _ = chunk.format(out, wrap);
        proof {
            assert(out@ =~= o0 + format_seq(kind, chunks@.take(i + 1), w0, saved as int).out);
        }
        i += 1;
    }
    proof {
        assert(chunks@.take(chunks.len() as int) =~= chunks@);
    }
}

impl OutputChunk {
    /// Writes this chunk, breaking lines where it would not fit within the maximum line length.
    pub fn format(&self, out: &mut String, wrap: &mut LineWrapping) -> (res: Result<(), Error>)
        requires
            self.formattable(),
            self.format_state(*old(wrap)).in_range,
        ensures
            res is Ok,
            final(out)@ == old(out)@ + self.format_state(*old(wrap)).out,
            *final(wrap) == self.format_state(*old(wrap)).wrap,
            final(wrap).current_line_indent == old(wrap).current_line_indent,
            final(wrap).max_line_length == old(wrap).max_line_length,
            self.newline_free() ==> final(wrap).line_length == line_after(
                old(wrap).line_length as int,
                self.format_state(*old(wrap)).out,
            ),
        decreases self,
    {
        proof {
            lemma_format_keeps_indent(*self, *wrap);
            if self.newline_free() {
                lemma_format_line_length(*self, *wrap);
            }
        }
        proof {
            reveal_strlit("(");
            reveal_strlit(")");
            reveal_strlit("[");
            reveal_strlit("]");
        }
        let saved_indent = wrap.current_line_indent;
        match self {
            OutputChunk::Literal(s) => {
                wrap.line_length += s.as_str().unicode_len();
                self.flatten(out)
            },
            OutputChunk::Str(s) => {
                wrap.line_length += s.unicode_len();
                self.flatten(out)
            },
            OutputChunk::Concat(chunks) => {
                format_children(SepKind::Glue, chunks, out, wrap, saved_indent);
                wrap.current_line_indent = saved_indent;
                Ok(())
            },
            OutputChunk::Parens(chunks) => {
                wrap.line_length += 1;
                out.append("(");
                format_children(SepKind::Comma, chunks, out, wrap, saved_indent);
                wrap.line_length += 1;
                wrap.current_line_indent = saved_indent;
                out.append(")");
                Ok(())
            },
            OutputChunk::Brackets(chunks) => {
                wrap.line_length += 1;
                out.append("[");
                format_children(SepKind::Comma, chunks, out, wrap, saved_indent);
                wrap.line_length += 1;
                wrap.current_line_indent = saved_indent;
                out.append("]");
                Ok(())
            },
            OutputChunk::Stmt(chunks) => {
                format_children(SepKind::Space, chunks, out, wrap, saved_indent);
                wrap.current_line_indent = saved_indent;
                Ok(())
            },
            _ => Ok(()),
        }
    }
}


/// Formatting the elements of a sequence leaves the maximum line length as it was.
proof fn lemma_format_seq_keeps_max(kind: SepKind, s: Seq<OutputChunk>, w: LineWrapping, saved: int)
    requires
        seq_formattable(s, kind is Comma),
    ensures
        format_seq(kind, s, w, saved).wrap.max_line_length == w.max_line_length,
    decreases s,
{
    if s.len() > 0 {
        lemma_format_seq_keeps_max(kind, s.drop_last(), w, saved);
        let p = format_seq(kind, s.drop_last(), w, saved);
        let q = separator(kind, p.wrap, s.last(), s.len() == 1, saved);
        lemma_format_keeps_indent(s.last(), q.wrap);
    }
}

/// Formatting a chunk ends on the indentation it started with, and leaves the maximum line
/// length as it was.
pub proof fn lemma_format_keeps_indent(c: OutputChunk, w: LineWrapping)
    requires
        c.formattable(),
    ensures
        c.format_state(w).wrap.current_line_indent == w.current_line_indent,
        c.format_state(w).wrap.max_line_length == w.max_line_length,
    decreases c,
{
    let saved = w.current_line_indent as int;
    match c {
        OutputChunk::Concat(v) => {
            lemma_format_seq_keeps_max(SepKind::Glue, v@, w, saved);
        },
        OutputChunk::Stmt(v) => {
            lemma_format_seq_keeps_max(SepKind::Space, v@, w, saved);
        },
        OutputChunk::Parens(v) | OutputChunk::Brackets(v) => {
            lemma_format_seq_keeps_max(SepKind::Comma, v@, grown(w, 1), saved);
        },
        _ => {},
    }
}

/// The length of the current line after `s` is written on a line `n` characters long: the
/// characters after the last newline of `s`, or `n` and all of `s` where it holds none.
pub open spec fn line_after(n: int, s: Seq<char>) -> int
    decreases s.len(),
{
    if s.len() == 0 {
        n
    } else if s.last() == '\n' {
        0
    } else {
        line_after(n, s.drop_last()) + 1
    }
}

/// Writing two texts one after the other.
proof fn lemma_line_after_add(n: int, a: Seq<char>, b: Seq<char>)
    ensures
        line_after(n, a + b) == line_after(line_after(n, a), b),
    decreases b.len(),
{
    if b.len() == 0 {
        assert(a + b =~= a);
    } else {
        assert((a + b).drop_last() =~= a + b.drop_last());
        assert((a + b).last() == b.last());
        lemma_line_after_add(n, a, b.drop_last());
    }
}

/// Writing a text without newlines lengthens the line by the text's length.
proof fn lemma_line_after_plain(n: int, s: Seq<char>)
    requires
        !s.contains('\n'),
    ensures
        line_after(n, s) == n + s.len(),
    decreases s.len(),
{
    if s.len() > 0 {
        assert(s.last() == s[s.len() - 1]);
        assert(!s.drop_last().contains('\n')) by {
            if s.drop_last().contains('\n') {
                let i = choose|i: int| 0 <= i < s.drop_last().len() && s.drop_last()[i] == '\n';
                assert(s[i] == '\n');
            }
        }
        lemma_line_after_plain(n, s.drop_last());
    }
}

/// After a line break the line holds just the new indentation.
proof fn lemma_line_after_break(n: int, extra: Seq<char>, w: LineWrapping)
    ensures
        line_after(n, extra + break_text(w)) == w.next_line_indent * 4,
{
    let k = (w.next_line_indent * 4) as nat;
    let t = break_text(w);
    assert(!spaces(k).contains('\n'));
    lemma_line_after_plain(0, spaces(k));
    assert(t =~= seq!['\n'] + spaces(k));
    assert((seq!['\n']).last() == '\n');
    lemma_line_after_add(n, extra + seq!['\n'], spaces(k));
    assert(extra + t =~= (extra + seq!['\n']) + spaces(k));
    assert((extra + seq!['\n']).last() == '\n');
}

/// Every chunk of the sequence stores only texts without newlines.
pub open spec fn all_newline_free(s: Seq<OutputChunk>) -> bool
    decreases s,
{
    if s.len() == 0 {
        true
    } else {
        all_newline_free(s.drop_last()) && s.last().newline_free()
    }
}

impl OutputChunk {
    /// No text stored in the tree holds a newline.
    pub open spec fn newline_free(self) -> bool
        decreases self,
    {
        match self {
            OutputChunk::Literal(t) => !t@.contains('\n'),
            OutputChunk::Str(t) => !t@.contains('\n'),
            OutputChunk::Concat(v) | OutputChunk::Parens(v) | OutputChunk::Brackets(v)
            | OutputChunk::Stmt(v) | OutputChunk::Ret(v) => all_newline_free(v@),
            OutputChunk::Infix { oper, precedence, args } => !oper@.contains('\n') && all_newline_free(args@),
            OutputChunk::FCall { func, args } => !func@.contains('\n') && all_newline_free(args@),
        }
    }
}

/// What is written before an element leaves the line length as the length of the line.
proof fn lemma_separator_line_length(kind: SepKind, w: LineWrapping, c: OutputChunk, first: bool, saved: int)
    requires
        saved >= 0,
        separator(kind, w, c, first, saved).in_range,
    ensures
        separator(kind, w, c, first, saved).wrap.line_length == line_after(
            w.line_length as int,
            separator(kind, w, c, first, saved).out,
        ),
{
    let q = separator(kind, w, c, first, saved);
    let h = c.spec_head_length() + 1;
    let n = w.line_length as int;
    match kind {
        SepKind::Glue => {
            if !first && !fits_on_line(w, h + 1) {
                lemma_line_after_break(n, Seq::empty(), with_next_indent(w, saved + 1));
            }
        },
        SepKind::Comma => {
            if fits_on_line(w, h) {
                if !first {
                    assert(!seq![',', ' '].contains('\n')) by {
                        assert(seq![',', ' '][0] != '\n' && seq![',', ' '][1] != '\n');
                    }
                    lemma_line_after_plain(n, seq![',', ' ']);
                }
            } else if first {
                lemma_line_after_break(n, Seq::empty(), with_next_indent(w, saved + 1));
            } else {
                lemma_line_after_break(n, seq![','], with_next_indent(grown(w, 1), saved + 1));
            }
        },
        SepKind::Space => {
            if !first {
                if fits_on_line(w, h + 1) {
                    assert(!seq![' '].contains('\n')) by {
                        assert(seq![' '][0] != '\n');
                    }
                    lemma_line_after_plain(n, seq![' ']);
                } else {
                    lemma_line_after_break(n, Seq::empty(), with_next_indent(w, saved + 1));
                }
            }
        },
    }
}

/// Formatting a sequence leaves the line length as the length of the line it ends on.
proof fn lemma_format_seq_line_length(kind: SepKind, s: Seq<OutputChunk>, w: LineWrapping, saved: int)
    requires
        saved >= 0,
        seq_formattable(s, kind is Comma),
        all_newline_free(s),
        format_seq(kind, s, w, saved).in_range,
    ensures
        format_seq(kind, s, w, saved).wrap.line_length == line_after(
            w.line_length as int,
            format_seq(kind, s, w, saved).out,
        ),
    decreases s,
{
    if s.len() > 0 {
        lemma_format_seq_line_length(kind, s.drop_last(), w, saved);
        let p = format_seq(kind, s.drop_last(), w, saved);
        let q = separator(kind, p.wrap, s.last(), s.len() == 1, saved);
        let f = s.last().format_state(q.wrap);
        lemma_separator_line_length(kind, p.wrap, s.last(), s.len() == 1, saved);
        lemma_format_line_length(s.last(), q.wrap);
        lemma_line_after_add(w.line_length as int, p.out, q.out);
        lemma_line_after_add(w.line_length as int, p.out + q.out, f.out);
        assert(format_seq(kind, s, w, saved).out == p.out + q.out + f.out);
    }
}

/// After formatting, the line length is the length of the current line: the characters
/// written since the last newline, counting the indentation that a line break writes, or the
/// former line length and all that was written where no newline was.
pub proof fn lemma_format_line_length(c: OutputChunk, w: LineWrapping)
    requires
        c.formattable(),
        c.newline_free(),
        c.format_state(w).in_range,
    ensures
        c.format_state(w).wrap.line_length == line_after(w.line_length as int, c.format_state(w).out),
    decreases c,
{
    let saved = w.current_line_indent as int;
    match c {
        OutputChunk::Literal(t) => {
            lemma_line_after_plain(w.line_length as int, t@);
        },
        OutputChunk::Str(t) => {
            lemma_line_after_plain(w.line_length as int, t@);
        },
        OutputChunk::Concat(v) => {
            lemma_format_seq_line_length(SepKind::Glue, v@, w, saved);
        },
        OutputChunk::Stmt(v) => {
            lemma_format_seq_line_length(SepKind::Space, v@, w, saved);
        },
        OutputChunk::Parens(v) | OutputChunk::Brackets(v) => {
            let g = grown(w, 1);
            let r = format_seq(SepKind::Comma, v@, g, saved);
            lemma_format_seq_line_length(SepKind::Comma, v@, g, saved);
            let open = if c is Parens { '(' } else { '[' };
            let close = if c is Parens { ')' } else { ']' };
            lemma_line_after_add(w.line_length as int, seq![open], r.out);
            lemma_line_after_add(w.line_length as int, seq![open] + r.out, seq![close]);
            reveal_with_fuel(line_after, 2);
            assert(c.format_state(w).out == seq![open] + r.out + seq![close]);
        },
        _ => {},
    }
}

/// Two texts without newlines give a text without newlines.
proof fn lemma_plain_add(a: Seq<char>, b: Seq<char>)
    requires
        !a.contains('\n'),
        !b.contains('\n'),
    ensures
        !(a + b).contains('\n'),
{
    if (a + b).contains('\n') {
        let k = choose|k: int| 0 <= k < (a + b).len() && (a + b)[k] == '\n';
        if k < a.len() {
            assert(a[k] == '\n');
        } else {
            assert(b[k - a.len()] == '\n');
        }
    }
}

/// A text holding a newline holds one wherever it is put.
proof fn lemma_newline_add(a: Seq<char>, b: Seq<char>)
    ensures
        a.contains('\n') ==> (a + b).contains('\n'),
        b.contains('\n') ==> (a + b).contains('\n'),
{
    if a.contains('\n') {
        let k = choose|k: int| 0 <= k < a.len() && a[k] == '\n';
        assert((a + b)[k] == '\n');
    }
    if b.contains('\n') {
        let k = choose|k: int| 0 <= k < b.len() && b[k] == '\n';
        assert((a + b)[a.len() + k] == '\n');
    }
}

/// A one-character text other than a newline holds no newline.
proof fn lemma_plain_char(c: char)
    requires
        c != '\n',
    ensures
        !seq![c].contains('\n'),
{
    if seq![c].contains('\n') {
        let k = choose|k: int| 0 <= k < seq![c].len() && seq![c][k] == '\n';
        assert(seq![c][k] == c);
    }
}

/// The flat text of chunks storing no newline holds none.
proof fn lemma_concat_flat_plain(s: Seq<OutputChunk>)
    requires
        all_newline_free(s),
    ensures
        !concat_flat(s).contains('\n'),
    decreases s,
{
    if s.len() > 0 {
        lemma_concat_flat_plain(s.drop_last());
        lemma_flat_newline_free(s.last());
        lemma_plain_add(concat_flat(s.drop_last()), s.last().flat());
    } else {
        assert(!Seq::<char>::empty().contains('\n'));
    }
}

/// The joined flat text of chunks storing no newline, with a separator holding none, holds
/// none.
proof fn lemma_join_flat_plain(s: Seq<OutputChunk>, sep: Seq<char>)
    requires
        all_newline_free(s),
        !sep.contains('\n'),
    ensures
        !join_flat(s, sep).contains('\n'),
    decreases s,
{
    if s.len() == 1 {
        assert(s.drop_last().len() == 0);
        assert(s[0] == s.last());
        lemma_flat_newline_free(s[0]);
    } else if s.len() > 1 {
        lemma_join_flat_plain(s.drop_last(), sep);
        lemma_flat_newline_free(s.last());
        lemma_plain_add(join_flat(s.drop_last(), sep), sep);
        lemma_plain_add(join_flat(s.drop_last(), sep) + sep, s.last().flat());
    } else {
        assert(!Seq::<char>::empty().contains('\n'));
    }
}

/// The flat text holds a newline only where a text stored in the chunk does: flattening
/// writes no line break of its own.
pub proof fn lemma_flat_newline_free(c: OutputChunk)
    requires
        c.newline_free(),
    ensures
        !c.flat().contains('\n'),
    decreases c,
{
    let cs = seq![',', ' '];
    assert(!cs.contains('\n')) by {
        lemma_plain_char(',');
        lemma_plain_char(' ');
        lemma_plain_add(seq![','], seq![' ']);
        assert(seq![','] + seq![' '] =~= cs);
    }
    lemma_plain_char(' ');
    lemma_plain_char(';');
    match c {
        OutputChunk::Concat(v) => {
            lemma_concat_flat_plain(v@);
        },
        OutputChunk::Parens(v) | OutputChunk::Brackets(v) => {
            lemma_join_flat_plain(v@, cs);
            let (o, e) = if c is Parens { ('(', ')') } else { ('[', ']') };
            lemma_plain_char(o);
            lemma_plain_char(e);
            lemma_plain_add(seq![o], join_flat(v@, cs));
            lemma_plain_add(seq![o] + join_flat(v@, cs), seq![e]);
        },
        OutputChunk::Stmt(v) => {
            lemma_join_flat_plain(v@, seq![' ']);
            lemma_plain_add(join_flat(v@, seq![' ']), seq![';']);
        },
        OutputChunk::Ret(v) => {
            let r = seq!['r', 'e', 't', 'u', 'r', 'n', ' '];
            assert(!r.contains('\n')) by {
                if r.contains('\n') {
                    let k = choose|k: int| 0 <= k < r.len() && r[k] == '\n';
                }
            }
            lemma_concat_flat_plain(v@);
            lemma_plain_add(r, concat_flat(v@));
            lemma_plain_add(r + concat_flat(v@), seq![';']);
        },
        OutputChunk::Infix { oper, precedence, args } => {
            let sep = seq![' '] + oper@ + seq![' '];
            lemma_plain_add(seq![' '], oper@);
            lemma_plain_add(seq![' '] + oper@, seq![' ']);
            lemma_join_flat_plain(args@, sep);
        },
        OutputChunk::FCall { func, args } => {
            lemma_join_flat_plain(args@, cs);
            lemma_plain_char('(');
            lemma_plain_char(')');
            lemma_plain_add(func@, seq!['(']);
            lemma_plain_add(func@ + seq!['('], join_flat(args@, cs));
            lemma_plain_add(func@ + seq!['('] + join_flat(args@, cs), seq![')']);
        },
        _ => {},
    }
}

/// Where a separator breaks a line, it writes a newline.
proof fn lemma_separator_breaks_write_newline(kind: SepKind, w: LineWrapping, c: OutputChunk, first: bool, saved: int)
    ensures
        separator(kind, w, c, first, saved).breaks > 0 ==> separator(kind, w, c, first, saved).out.contains('\n'),
{
    let q = separator(kind, w, c, first, saved);
    if q.breaks > 0 {
        // the break writes its newline right after what comes before it
        let v = match kind {
            SepKind::Comma => if first { w } else { grown(w, 1) },
            _ => w,
        };
        let x: Seq<char> = match kind {
            SepKind::Comma => if first { Seq::empty() } else { seq![','] },
            _ => Seq::empty(),
        };
        let b = break_text(with_next_indent(v, saved + 1));
        assert(q.out == x + b);
        assert(b[0] == '\n');
        lemma_newline_add(x, b);
        assert(b.contains('\n'));
    }
}

/// Where formatting a sequence breaks a line, it writes a newline.
proof fn lemma_format_seq_breaks_write_newline(kind: SepKind, s: Seq<OutputChunk>, w: LineWrapping, saved: int)
    requires
        seq_formattable(s, kind is Comma),
    ensures
        format_seq(kind, s, w, saved).breaks > 0 ==> format_seq(kind, s, w, saved).out.contains('\n'),
    decreases s,
{
    if s.len() > 0 {
        lemma_format_seq_breaks_write_newline(kind, s.drop_last(), w, saved);
        let p = format_seq(kind, s.drop_last(), w, saved);
        let q = separator(kind, p.wrap, s.last(), s.len() == 1, saved);
        let f = s.last().format_state(q.wrap);
        lemma_separator_breaks_write_newline(kind, p.wrap, s.last(), s.len() == 1, saved);
        lemma_format_breaks_write_newline(s.last(), q.wrap);
        lemma_newline_add(p.out, q.out);
        lemma_newline_add(p.out + q.out, f.out);
    }
}

/// Where formatting breaks a line, it writes a newline.
proof fn lemma_format_breaks_write_newline(c: OutputChunk, w: LineWrapping)
    requires
        c.formattable(),
    ensures
        c.format_state(w).breaks > 0 ==> c.format_state(w).out.contains('\n'),
    decreases c,
{
    let saved = w.current_line_indent as int;
    match c {
        OutputChunk::Concat(v) => {
            lemma_format_seq_breaks_write_newline(SepKind::Glue, v@, w, saved);
        },
        OutputChunk::Stmt(v) => {
            lemma_format_seq_breaks_write_newline(SepKind::Space, v@, w, saved);
        },
        OutputChunk::Parens(v) | OutputChunk::Brackets(v) => {
            let r = format_seq(SepKind::Comma, v@, grown(w, 1), saved);
            lemma_format_seq_breaks_write_newline(SepKind::Comma, v@, grown(w, 1), saved);
            let (o, e) = if c is Parens { ('(', ')') } else { ('[', ']') };
            lemma_newline_add(seq![o], r.out);
            lemma_newline_add(seq![o] + r.out, seq![e]);
        },
        _ => {},
    }
}

/// Where formatting a chunk free of statement blocks writes no newline, it writes exactly the
/// chunk's flat text, as `flatten` does.
pub proof fn lemma_format_without_newline_is_flat(c: OutputChunk, w: LineWrapping)
    requires
        c.formattable(),
        c.statement_free(),
        !c.format_state(w).out.contains('\n'),
    ensures
        c.format_state(w).out == c.flat(),
{
    lemma_format_breaks_write_newline(c, w);
    lemma_format_without_breaks_is_flat(c, w);
}

/// The text without its spaces and newlines.
pub open spec fn visible(s: Seq<char>) -> Seq<char>
    decreases s.len(),
{
    if s.len() == 0 {
        Seq::empty()
    } else if s.last() == ' ' || s.last() == '\n' {
        visible(s.drop_last())
    } else {
        visible(s.drop_last()).push(s.last())
    }
}

/// Dropping spaces and newlines from two texts one after the other.
proof fn lemma_visible_add(a: Seq<char>, b: Seq<char>)
    ensures
        visible(a + b) == visible(a) + visible(b),
    decreases b.len(),
{
    if b.len() == 0 {
        assert(a + b =~= a);
        assert(visible(a) + visible(b) =~= visible(a));
    } else {
        assert((a + b).drop_last() =~= a + b.drop_last());
        assert((a + b).last() == b.last());
        lemma_visible_add(a, b.drop_last());
        assert(visible(a) + visible(b.drop_last()).push(b.last()) =~= (visible(a) + visible(
            b.drop_last(),
        )).push(b.last()));
    }
}

/// A single character, without spaces and newlines.
proof fn lemma_visible_char(c: char)
    ensures
        visible(seq![c]) == (if c == ' ' || c == '\n' {
            Seq::<char>::empty()
        } else {
            seq![c]
        }),
{
    assert(seq![c].drop_last() =~= Seq::<char>::empty());
    assert(seq![c].last() == c);
    assert(visible(Seq::<char>::empty()) == Seq::<char>::empty());
    assert(Seq::<char>::empty().push(c) =~= seq![c]);
}

/// The comma and space that separate elements show as a comma.
proof fn lemma_visible_comma_space()
    ensures
        visible(seq![',', ' ']) == seq![','],
{
    lemma_visible_char(',');
    lemma_visible_char(' ');
    lemma_visible_add(seq![','], seq![' ']);
    assert(seq![',', ' '] =~= seq![','] + seq![' ']);
    assert(seq![','] + Seq::<char>::empty() =~= seq![',']);
}

/// Spaces are not visible.
proof fn lemma_visible_spaces(n: nat)
    ensures
        visible(spaces(n)) == Seq::<char>::empty(),
    decreases n,
{
    if n > 0 {
        assert(spaces(n).drop_last() =~= spaces((n - 1) as nat));
        lemma_visible_spaces((n - 1) as nat);
    }
}

/// A line break is not visible.
proof fn lemma_visible_break(w: LineWrapping)
    ensures
        visible(break_text(w)) == Seq::<char>::empty(),
{
    let k = (w.next_line_indent * 4) as nat;
    lemma_visible_spaces(k);
    lemma_visible_add(seq!['\n'], spaces(k));
    lemma_visible_char('\n');
    assert(break_text(w) == seq!['\n'] + spaces(k));
    assert(Seq::<char>::empty() + Seq::<char>::empty() =~= Seq::<char>::empty());
}

/// What a separator writes, without spaces and newlines: a comma between two elements of a
/// comma-separated sequence, else nothing.
proof fn lemma_separator_visible(kind: SepKind, w: LineWrapping, c: OutputChunk, first: bool, saved: int)
    ensures
        visible(separator(kind, w, c, first, saved).out) == (if kind is Comma && !first {
            seq![',']
        } else {
            Seq::<char>::empty()
        }),
{
    let h = c.spec_head_length() + 1;
    let comma = seq![','];
    lemma_visible_char(',');
    lemma_visible_comma_space();
    assert(visible(Seq::<char>::empty()) == Seq::<char>::empty());
    match kind {
        SepKind::Comma => {
            let q = separator(kind, w, c, first, saved);
            if !fits_on_line(w, h) {
                let v = if first { w } else { grown(w, 1) };
                let x = if first { Seq::<char>::empty() } else { comma };
                let b = break_text(with_next_indent(v, saved + 1));
                assert(q.out == x + b);
                lemma_visible_break(with_next_indent(v, saved + 1));
                lemma_visible_add(x, b);
                assert(visible(x) + Seq::<char>::empty() =~= visible(x));
                if first {
                    assert(visible(x) == Seq::<char>::empty());
                } else {
                    assert(visible(x) == comma);
                }
                assert(visible(q.out) == visible(x));
            } else if first {
                assert(q.out == Seq::<char>::empty());
                assert(visible(q.out) == Seq::<char>::empty());
            } else {
                assert(q.out == seq![',', ' ']);
                assert(visible(q.out) == comma);
            }
        },
        _ => {
            let q = separator(kind, w, c, first, saved);
            let b = break_text(with_next_indent(w, saved + 1));
            lemma_visible_break(with_next_indent(w, saved + 1));
            lemma_visible_char(' ');
            assert(Seq::<char>::empty() + b =~= b);
            if q.breaks > 0 {
                assert(q.out == Seq::<char>::empty() + b);
            } else if !first && kind is Space {
                assert(q.out == seq![' ']);
            } else {
                assert(q.out == Seq::<char>::empty());
            }
            assert(visible(q.out) == Seq::<char>::empty());
        },
    }
}

/// Without spaces and newlines, formatting a sequence glued together gives its flat text.
proof fn lemma_format_seq_glue_visible(s: Seq<OutputChunk>, w: LineWrapping, saved: int)
    requires
        seq_formattable(s, false),
        all_statement_free(s),
    ensures
        visible(format_seq(SepKind::Glue, s, w, saved).out) == visible(concat_flat(s)),
    decreases s,
{
    if s.len() > 0 {
        lemma_format_seq_glue_visible(s.drop_last(), w, saved);
        let p = format_seq(SepKind::Glue, s.drop_last(), w, saved);
        let q = separator(SepKind::Glue, p.wrap, s.last(), s.len() == 1, saved);
        let f = s.last().format_state(q.wrap);
        lemma_separator_visible(SepKind::Glue, p.wrap, s.last(), s.len() == 1, saved);
        lemma_format_visible(s.last(), q.wrap);
        lemma_visible_add(p.out, q.out);
        lemma_visible_add(p.out + q.out, f.out);
        lemma_visible_add(concat_flat(s.drop_last()), s.last().flat());
        assert(visible(p.out) + visible(q.out) =~= visible(p.out));
    } else {
        assert(visible(Seq::<char>::empty()) == Seq::<char>::empty());
    }
}

/// Without spaces and newlines, formatting a comma-separated sequence gives its flat text
/// joined by commas and spaces.
proof fn lemma_format_seq_comma_visible(s: Seq<OutputChunk>, w: LineWrapping, saved: int)
    requires
        seq_formattable(s, true),
        all_statement_free(s),
    ensures
        visible(format_seq(SepKind::Comma, s, w, saved).out) == visible(join_flat(s, seq![',', ' '])),
    decreases s,
{
    let cs = seq![',', ' '];
    if s.len() > 0 {
        lemma_format_seq_comma_visible(s.drop_last(), w, saved);
        let p = format_seq(SepKind::Comma, s.drop_last(), w, saved);
        let q = separator(SepKind::Comma, p.wrap, s.last(), s.len() == 1, saved);
        let f = s.last().format_state(q.wrap);
        lemma_separator_visible(SepKind::Comma, p.wrap, s.last(), s.len() == 1, saved);
        lemma_format_visible(s.last(), q.wrap);
        lemma_visible_add(p.out, q.out);
        lemma_visible_add(p.out + q.out, f.out);
        lemma_visible_comma_space();
        if s.len() == 1 {
            assert(s.drop_last().len() == 0);
            assert(s.last() == s[0]);
            assert(visible(Seq::<char>::empty()) == Seq::<char>::empty());
            assert(p.out == Seq::<char>::empty());
            assert(visible(p.out) + visible(q.out) =~= Seq::<char>::empty());
            assert(Seq::<char>::empty() + visible(f.out) =~= visible(f.out));
        } else {
            lemma_visible_add(join_flat(s.drop_last(), cs), cs);
            lemma_visible_add(join_flat(s.drop_last(), cs) + cs, s.last().flat());
        }
    } else {
        assert(visible(Seq::<char>::empty()) == Seq::<char>::empty());
    }
}

/// Line wrapping only adds spaces and line breaks: without spaces and newlines, what
/// formatting a chunk free of statement blocks writes is its flat text.
pub proof fn lemma_format_visible(c: OutputChunk, w: LineWrapping)
    requires
        c.formattable(),
        c.statement_free(),
    ensures
        visible(c.format_state(w).out) == visible(c.flat()),
    decreases c,
{
    let saved = w.current_line_indent as int;
    match c {
        OutputChunk::Concat(v) => {
            lemma_format_seq_glue_visible(v@, w, saved);
        },
        OutputChunk::Parens(v) | OutputChunk::Brackets(v) => {
            let cs = seq![',', ' '];
            let r = format_seq(SepKind::Comma, v@, grown(w, 1), saved);
            lemma_format_seq_comma_visible(v@, grown(w, 1), saved);
            let (o, e) = if c is Parens { ('(', ')') } else { ('[', ']') };
            lemma_visible_add(seq![o], r.out);
            lemma_visible_add(seq![o] + r.out, seq![e]);
            lemma_visible_add(seq![o], join_flat(v@, cs));
            lemma_visible_add(seq![o] + join_flat(v@, cs), seq![e]);
        },
        _ => {},
    }
}

/// Every chunk of the sequence is free of statement blocks.
pub open spec fn all_statement_free(s: Seq<OutputChunk>) -> bool
    decreases s,
{
    if s.len() == 0 {
        true
    } else {
        all_statement_free(s.drop_last()) && s.last().statement_free()
    }
}

impl OutputChunk {
    /// The tree holds no statement block (`Stmt`).
    pub open spec fn statement_free(self) -> bool
        decreases self,
    {
        match self {
            OutputChunk::Literal(_) | OutputChunk::Str(_) => true,
            OutputChunk::Stmt(_) => false,
            OutputChunk::Concat(v) | OutputChunk::Parens(v) | OutputChunk::Brackets(v)
            | OutputChunk::Ret(v) => all_statement_free(v@),
            OutputChunk::Infix { oper, precedence, args } => all_statement_free(args@),
            OutputChunk::FCall { func, args } => all_statement_free(args@),
        }
    }
}

/// Without line breaks, formatting a sequence glued together writes its flat text.
proof fn lemma_format_seq_glue_flat(s: Seq<OutputChunk>, w: LineWrapping, saved: int)
    requires
        seq_formattable(s, false),
        all_statement_free(s),
        format_seq(SepKind::Glue, s, w, saved).breaks == 0,
    ensures
        format_seq(SepKind::Glue, s, w, saved).out == concat_flat(s),
    decreases s,
{
    if s.len() > 0 {
        lemma_format_seq_glue_flat(s.drop_last(), w, saved);
        let p = format_seq(SepKind::Glue, s.drop_last(), w, saved);
        let q = separator(SepKind::Glue, p.wrap, s.last(), s.len() == 1, saved);
        lemma_format_without_breaks_is_flat(s.last(), q.wrap);
        assert(format_seq(SepKind::Glue, s, w, saved).out =~= concat_flat(s));
    }
}

/// Without line breaks, formatting a comma-separated sequence writes its flat text, joined
/// by commas and spaces.
proof fn lemma_format_seq_comma_flat(s: Seq<OutputChunk>, w: LineWrapping, saved: int)
    requires
        seq_formattable(s, true),
        all_statement_free(s),
        format_seq(SepKind::Comma, s, w, saved).breaks == 0,
    ensures
        format_seq(SepKind::Comma, s, w, saved).out == join_flat(s, seq![',', ' ']),
    decreases s,
{
    if s.len() > 0 {
        lemma_format_seq_comma_flat(s.drop_last(), w, saved);
        let p = format_seq(SepKind::Comma, s.drop_last(), w, saved);
        let q = separator(SepKind::Comma, p.wrap, s.last(), s.len() == 1, saved);
        lemma_format_without_breaks_is_flat(s.last(), q.wrap);
        if s.len() == 1 {
            assert(s.last() == s[0]);
            assert(s.drop_last().len() == 0);
        }
        assert(format_seq(SepKind::Comma, s, w, saved).out =~= join_flat(s, seq![',', ' ']));
    }
}

/// When formatting a chunk free of statement blocks breaks no line, it writes exactly the
/// chunk's flat text, as `flatten` does.
pub proof fn lemma_format_without_breaks_is_flat(c: OutputChunk, w: LineWrapping)
    requires
        c.formattable(),
        c.statement_free(),
        c.format_state(w).breaks == 0,
    ensures
        c.format_state(w).out == c.flat(),
    decreases c,
{
    let saved = w.current_line_indent as int;
    match c {
        OutputChunk::Concat(v) => {
            lemma_format_seq_glue_flat(v@, w, saved);
        },
        OutputChunk::Parens(v) | OutputChunk::Brackets(v) => {
            lemma_format_seq_comma_flat(v@, grown(w, 1), saved);
        },
        _ => {},
    }
}


/// The mathematical value of an output chunk: texts as character sequences, and the parts of
/// compound chunks as sequences.
pub enum ChunkView {
    Literal(Seq<char>),
    Str(Seq<char>),
    Concat(Seq<ChunkView>),
    Parens(Seq<ChunkView>),
    Brackets(Seq<ChunkView>),
    Stmt(Seq<ChunkView>),
    Ret(Seq<ChunkView>),
    Infix { oper: Seq<char>, precedence: usize, args: Seq<ChunkView> },
    FCall { func: Seq<char>, args: Seq<ChunkView> },
}

/// The values of a sequence of chunks.
pub open spec fn chunks_view(s: Seq<OutputChunk>) -> Seq<ChunkView>
    decreases s,
{
    if s.len() == 0 {
        Seq::empty()
    } else {
        chunks_view(s.drop_last()).push(s.last().deep_view_of())
    }
}

impl OutputChunk {
    /// The mathematical value of the chunk tree.
    pub open spec fn deep_view_of(self) -> ChunkView
        decreases self,
    {
        match self {
            OutputChunk::Literal(s) => ChunkView::Literal(s@),
            OutputChunk::Str(s) => ChunkView::Str(s@),
            OutputChunk::Concat(v) => ChunkView::Concat(chunks_view(v@)),
            OutputChunk::Parens(v) => ChunkView::Parens(chunks_view(v@)),
            OutputChunk::Brackets(v) => ChunkView::Brackets(chunks_view(v@)),
            OutputChunk::Stmt(v) => ChunkView::Stmt(chunks_view(v@)),
            OutputChunk::Ret(v) => ChunkView::Ret(chunks_view(v@)),
            OutputChunk::Infix { oper, precedence, args } => ChunkView::Infix {
                oper: oper@,
                precedence,
                args: chunks_view(args@),
            },
            OutputChunk::FCall { func, args } => ChunkView::FCall {
                func: func@,
                args: chunks_view(args@),
            },
        }
    }
}

impl View for OutputChunk {
    type V = ChunkView;

    open spec fn view(&self) -> ChunkView {
        self.deep_view_of()
    }
}

/// Appending a chunk appends its value.
pub proof fn lemma_chunks_view_push(s: Seq<OutputChunk>, c: OutputChunk)
    ensures
        chunks_view(s.push(c)) == chunks_view(s).push(c@),
{
    assert(s.push(c).drop_last() =~= s);
}

impl From<String> for OutputChunk {
    fn from(s: String) -> (res: Self) {
        OutputChunk::Literal(s)
    }
}

impl vstd::std_specs::convert::FromSpecImpl<String> for OutputChunk {
    open spec fn obeys_from_spec() -> bool {
        true
    }

    open spec fn from_spec(s: String) -> Self {
        OutputChunk::Literal(s)
    }
}

impl From<&'static str> for OutputChunk {
    fn from(s: &'static str) -> (res: Self) {
        OutputChunk::Str(s)
    }
}

impl vstd::std_specs::convert::FromSpecImpl<&'static str> for OutputChunk {
    open spec fn obeys_from_spec() -> bool {
        true
    }

    open spec fn from_spec(s: &'static str) -> Self {
        OutputChunk::Str(s)
    }
}

} // verus!
