//! Evaluation of expression trees against a grid.
//!
//! A reference evaluates the text of the cell it names. The cells whose text
//! is under evaluation form a path; a reference back into the path is
//! circular and is not followed.
use crate::models::cell::CellLocation;
use crate::models::cell::CellRange;
use crate::models::context::EvalContext;
use crate::models::cell::bound_after;
use crate::parser::ast::ASTNode;
use crate::parser::ast::CellRef;
use crate::parser::ast::Operator;
use crate::parser::functions::evaluate_function;
use crate::parser::functions::sum;
use crate::parser::functions::mult;
use crate::parser::functions::div;
use crate::parser::parser::parse;
use crate::parser::value::EvalResult;
use vstd::prelude::*;
use vstd::string::StringExecFns;

verus! {

/// The range of the positions from `start` to `stop`, both included. Where
/// `stop` names no row the range is open at its end.
pub open spec fn span_range(start: CellRef, stop: CellRef) -> CellRange {
    CellRange {
        start_row: start.row,
        start_col: start.col,
        stop_row: if stop.row == -1 {
            -1i32
        } else {
            crate::models::cell::next_bound(stop.row)
        },
        stop_col: crate::models::cell::next_bound(stop.col),
    }
}

/// The elements of the sequences of `parts`, in order.
pub open spec fn concat_all(parts: Seq<Seq<CellRange>>) -> Seq<CellRange>
    decreases parts.len(),
{
    if parts.len() == 0 {
        Seq::empty()
    } else {
        concat_all(parts.drop_last()) + parts.last()
    }
}

/// The ranges that `ast` reads, in the order in which it names them.
pub open spec fn refs_of(ast: crate::parser::ast::Ast) -> Seq<CellRange>
    decreases ast,
{
    match ast {
        crate::parser::ast::Ast::Unary { op, operand } => refs_of(*operand),
        crate::parser::ast::Ast::Binary { op, lhs, rhs } => refs_of(*lhs) + refs_of(*rhs),
        crate::parser::ast::Ast::Function { name, args } => concat_all(arg_refs(args)),
        crate::parser::ast::Ast::Ref(r) => seq![r.spec_loc().spec_to_range()],
        crate::parser::ast::Ast::Range { start, stop } => seq![span_range(start, stop)],
        _ => Seq::empty(),
    }
}

/// For each expression of `args`, the ranges that it reads.
pub open spec fn arg_refs(args: Seq<crate::parser::ast::Ast>) -> Seq<Seq<CellRange>>
    decreases args,
{
    Seq::new(
        args.len(),
        |i: int|
            if 0 <= i < args.len() {
                refs_of(args[i])
            } else {
                Seq::empty()
            },
    )
}

fn append_ranges(into: &mut Vec<CellRange>, from: &Vec<CellRange>)
    ensures
        final(into)@ == old(into)@ + from@,
{
    let mut i: usize = 0;
    while i < from.len()
        invariant
            i <= from.len(),
            into@ == old(into)@ + from@.take(i as int),
        decreases from.len() - i,
    {
        into.push(from[i]);
        assert(into@ =~= old(into)@ + from@.take(i + 1));
        i = i + 1;
    }
    assert(from@.take(from.len() as int) =~= from@);
}

fn get_arg_refs(args: &Vec<Box<ASTNode>>) -> (refs: Vec<CellRange>)
    ensures
        refs@ == concat_all(arg_refs(crate::parser::ast::arg_views(args@))),
    decreases args,
{
    let ghost parts = arg_refs(crate::parser::ast::arg_views(args@));
    let mut refs: Vec<CellRange> = Vec::new();
    let mut i: usize = 0;
    while i < args.len()
        invariant
            i <= args.len(),
            parts == arg_refs(crate::parser::ast::arg_views(args@)),
            refs@ == concat_all(parts.take(i as int)),
        decreases args.len() - i,
    {
        let inner = get_refs(&args[i]);
        proof {
            assert(parts.take(i + 1).drop_last() =~= parts.take(i as int));
            assert(parts.take(i + 1).last() == refs_of(args@[i as int]@));
        }
        append_ranges(&mut refs, &inner);
        i = i + 1;
    }
    assert(parts.take(args.len() as int) =~= parts);
    refs
}

/// The ranges that the expression reads, in the order in which it names
/// them: one for each reference and each range, wherever it stands in the
/// tree.
pub fn get_refs(n: &ASTNode) -> (refs: Vec<CellRange>)
    ensures
        refs@ == refs_of(n@),
    decreases n,
{
    match n {
        ASTNode::UnaryExpr { op: _, operand } => get_refs(operand),
        ASTNode::BinaryExpr { op: _, lhs, rhs } => {
            let mut refs = get_refs(lhs);
            let right = get_refs(rhs);
            append_ranges(&mut refs, &right);
            refs
        },
        ASTNode::Function { name: _, args } => {
            proof {
                crate::parser::ast::lemma_function_view(*n);
            }
            get_arg_refs(args)
        },
        ASTNode::Ref(cell_ref) => {
            let mut refs: Vec<CellRange> = Vec::new();
            refs.push(cell_ref.to_cell_range());
            assert(refs@ =~= seq![cell_ref.spec_loc().spec_to_range()]);
            refs
        },
        ASTNode::Range { start, stop } => {
            let stop_row: i32 = if stop.is_unbounded() {
                -1
            } else {
                bound_after(stop.row)
            };
            let mut refs: Vec<CellRange> = Vec::new();
            refs.push(
                CellRange {
                    start_row: start.row,
                    start_col: start.col,
                    stop_row,
                    stop_col: bound_after(stop.col),
                },
            );
            assert(refs@ =~= seq![span_range(*start, *stop)]);
            refs
        },
        _ => Vec::new(),
    }
}

/// The name of an operator in a message.
pub open spec fn operator_name(op: Operator) -> Seq<char> {
    match op {
        Operator::Add => "Add"@,
        Operator::Subtract => "Subtract"@,
        Operator::Multiply => "Multiply"@,
        Operator::Divide => "Divide"@,
        Operator::Null => "Null"@,
    }
}

/// The value of a sign before an operand of value `v`: an error stays what
/// it is, `-` subtracts from zero, and no other sign may stand there.
pub open spec fn unary_value(op: Operator, v: crate::parser::value::Value)
    -> crate::parser::value::Value {
    match v {
        crate::parser::value::Value::Error(e) => crate::parser::value::Value::Error(e),
        _ => match op {
            Operator::Subtract => crate::parser::functions::fold_spec(
                seq![crate::parser::value::Value::Numeric(crate::number::Number { units: 0 }), v],
                Operator::Subtract,
            ),
            _ => crate::parser::value::Value::Error("invalid unary operator "@ + operator_name(op)),
        },
    }
}

/// The value of `l op r`: the error of the left operand, else that of the
/// right one, else the operator's function on the two operands.
pub open spec fn binary_value(
    op: Operator,
    l: crate::parser::value::Value,
    r: crate::parser::value::Value,
) -> crate::parser::value::Value {
    match (l, r) {
        (crate::parser::value::Value::Error(e), _) => crate::parser::value::Value::Error(e),
        (_, crate::parser::value::Value::Error(e)) => crate::parser::value::Value::Error(e),
        _ => match op {
            Operator::Null => l,
            _ => crate::parser::functions::fold_spec(seq![l, r], op),
        },
    }
}

/// The first error among `vals`, if there is one.
pub open spec fn first_error(vals: Seq<crate::parser::value::Value>) -> Option<Seq<char>>
    decreases vals.len(),
{
    if vals.len() == 0 {
        None
    } else {
        match first_error(vals.drop_last()) {
            Some(e) => Some(e),
            None => match vals.last() {
                crate::parser::value::Value::Error(e) => Some(e),
                _ => None,
            },
        }
    }
}

/// `vals` with each list replaced by its items.
pub open spec fn flatten(vals: Seq<crate::parser::value::Value>) -> Seq<
    crate::parser::value::Value,
>
    decreases vals.len(),
{
    if vals.len() == 0 {
        Seq::empty()
    } else {
        match vals.last() {
            crate::parser::value::Value::List(items) => flatten(vals.drop_last()) + items,
            v => flatten(vals.drop_last()).push(v),
        }
    }
}

/// The value of a call of `name` whose arguments have the values `vals`:
/// the first error among them, else the function on the flattened arguments.
pub open spec fn call_value(name: Seq<char>, vals: Seq<crate::parser::value::Value>)
    -> crate::parser::value::Value {
    match first_error(vals) {
        Some(e) => crate::parser::value::Value::Error(e),
        None => crate::parser::functions::function_value(name, flatten(vals)),
    }
}

/// The positions with text in rows `r..=r1` of the columns `c0..=c1`, row by
/// row, beginning in row `r` at column `c`.
pub open spec fn cells_from(
    r: int,
    c: int,
    r1: int,
    c0: int,
    c1: int,
    sheet: crate::models::context::Sheet,
) -> Seq<CellRef>
    decreases r1 - r + 1, c1 - c + 1,
{
    if r > r1 {
        Seq::empty()
    } else if c > c1 {
        cells_from(r + 1, c0, r1, c0, c1, sheet)
    } else if sheet.text_at(r, c) is Some {
        seq![CellRef { col: c as i32, row: r as i32 }] + cells_from(r, c + 1, r1, c0, c1, sheet)
    } else {
        cells_from(r, c + 1, r1, c0, c1, sheet)
    }
}

/// The larger of `a` and `b`.
pub open spec fn max_of(a: int, b: int) -> int {
    if a >= b {
        a
    } else {
        b
    }
}

/// The smaller of `a` and `b`.
pub open spec fn min_of(a: int, b: int) -> int {
    if a <= b {
        a
    } else {
        b
    }
}

/// The positions with text between `start` and `stop`, both included, row
/// by row. A `stop` without a row reaches the last row of the grid.
pub open spec fn range_cells(start: CellRef, stop: CellRef, sheet: crate::models::context::Sheet)
    -> Seq<CellRef> {
    let last_row = if stop.row == -1 {
        sheet.rows - 1
    } else {
        stop.row as int
    };
    cells_from(
        max_of(start.row as int, 0),
        max_of(start.col as int, 0),
        min_of(last_row, sheet.rows - 1),
        max_of(start.col as int, 0),
        min_of(stop.col as int, sheet.cols - 1),
        sheet,
    )
}

/// How many more cells a path may take up before it holds as many as the
/// grid has positions.
pub open spec fn budget(sheet: crate::models::context::Sheet, path: Seq<CellLocation>) -> int {
    sheet.capacity() - path.len()
}

/// The value of `ast` in `sheet` while the cells of `path` are under
/// evaluation.
pub open spec fn eval(
    ast: crate::parser::ast::Ast,
    path: Seq<CellLocation>,
    sheet: crate::models::context::Sheet,
) -> crate::parser::value::Value
    decreases budget(sheet, path), 2int, ast,
{
    match ast {
        crate::parser::ast::Ast::Empty => crate::parser::value::Value::NonNumeric(Seq::empty()),
        crate::parser::ast::Ast::Number(n) => crate::parser::value::Value::Numeric(n),
        crate::parser::ast::Ast::Text(t) => crate::parser::value::Value::NonNumeric(t),
        crate::parser::ast::Ast::Unary { op, operand } => unary_value(
            op,
            eval(*operand, path, sheet),
        ),
        crate::parser::ast::Ast::Binary { op, lhs, rhs } => binary_value(
            op,
            eval(*lhs, path, sheet),
            eval(*rhs, path, sheet),
        ),
        crate::parser::ast::Ast::Function { name, args } => call_value(
            name,
            eval_args(args, path, sheet),
        ),
        crate::parser::ast::Ast::Ref(r) => eval_ref(r, path, sheet),
        crate::parser::ast::Ast::Range { start, stop } => crate::parser::value::Value::List(
            eval_cells(range_cells(start, stop, sheet), path, sheet),
        ),
        crate::parser::ast::Ast::ParseError(e) => crate::parser::value::Value::Error(e),
    }
}

/// The values of the expressions `args`, in order.
pub open spec fn eval_args(
    args: Seq<crate::parser::ast::Ast>,
    path: Seq<CellLocation>,
    sheet: crate::models::context::Sheet,
) -> Seq<crate::parser::value::Value>
    decreases budget(sheet, path), 2int, args,
{
    Seq::new(
        args.len(),
        |i: int|
            if 0 <= i < args.len() {
                eval(args[i], path, sheet)
            } else {
                crate::parser::value::Value::Bool(false)
            },
    )
}

/// The values of references to the positions `cells`, in order.
pub open spec fn eval_cells(
    cells: Seq<CellRef>,
    path: Seq<CellLocation>,
    sheet: crate::models::context::Sheet,
) -> Seq<crate::parser::value::Value>
    decreases budget(sheet, path), 1int, crate::parser::ast::Ast::Empty,
{
    Seq::new(cells.len(), |i: int| eval_ref(cells[i], path, sheet))
}

/// The value of a reference to `r`: `#CIRCULAR` where `r` is on the path,
/// `#REF` where it lies outside the grid, the empty text where the grid
/// holds no text there, and else the value of the text found there, with `r`
/// added to the path.
///
/// A path that holds as many cells as the grid has positions cannot grow
/// without a repetition; a reference met then is circular too.
pub open spec fn eval_ref(
    r: CellRef,
    path: Seq<CellLocation>,
    sheet: crate::models::context::Sheet,
) -> crate::parser::value::Value
    decreases budget(sheet, path), 0int, crate::parser::ast::Ast::Empty,
{
    if path.contains(r.spec_loc()) {
        crate::parser::value::Value::Error(crate::parser::value::circular_error())
    } else if !r.spec_is_valid(sheet.rows, sheet.cols) {
        crate::parser::value::Value::Error(crate::parser::value::reference_error())
    } else if path.len() >= sheet.capacity() {
        crate::parser::value::Value::Error(crate::parser::value::circular_error())
    } else {
        match sheet.text_at(r.row as int, r.col as int) {
            Some(text) => eval(
                crate::parser::parser::parse_text(text),
                path.push(r.spec_loc()),
                sheet,
            ),
            None => crate::parser::value::Value::NonNumeric(Seq::empty()),
        }
    }
}

/// The text shown for a value: a number in decimal, a truth value as `true`
/// or `false`, a text as it is, an error as its code, a list as nothing.
pub open spec fn display_of(v: crate::parser::value::Value) -> Seq<char> {
    match v {
        crate::parser::value::Value::Numeric(n) => crate::number::render_spec(n.units as int),
        crate::parser::value::Value::Bool(b) => if b {
            "true"@
        } else {
            "false"@
        },
        crate::parser::value::Value::NonNumeric(s) => s,
        crate::parser::value::Value::List(_) => Seq::empty(),
        crate::parser::value::Value::Error(e) => e,
    }
}

/// The text shown for a cell whose raw text is `text`.
pub open spec fn display_text(text: Seq<char>, sheet: crate::models::context::Sheet) -> Seq<char> {
    display_of(eval(crate::parser::parser::parse_text(text), Seq::empty(), sheet))
}

fn on_path(path: &Vec<CellLocation>, loc: CellLocation) -> (b: bool)
    ensures
        b == path@.contains(loc),
{
    let mut i: usize = 0;
    while i < path.len()
        invariant
            i <= path.len(),
            forall|k: int| 0 <= k < i ==> path@[k] != loc,
        decreases path.len() - i,
    {
        if path[i] == loc {
            return true;
        }
        i = i + 1;
    }
    false
}

fn operator_text(op: Operator) -> (s: &'static str)
    ensures
        s@ == operator_name(op),
{
    match op {
        Operator::Add => "Add",
        Operator::Subtract => "Subtract",
        Operator::Multiply => "Multiply",
        Operator::Divide => "Divide",
        Operator::Null => "Null",
    }
}

fn unary_result(op: Operator, v: EvalResult) -> (r: EvalResult)
    ensures
        r@ == unary_value(op, v@),
{
    match v {
        EvalResult::Error(e) => EvalResult::Error(e),
        v => match op {
            Operator::Subtract => {
                let mut pair: Vec<EvalResult> = Vec::new();
                let ghost operand = v@;
                pair.push(EvalResult::Numeric(crate::number::Number::zero()));
                pair.push(v);
                assert(crate::parser::value::values(pair@) =~= seq![
                    crate::parser::value::Value::Numeric(crate::number::Number { units: 0 }),
                    operand,
                ]);
                crate::parser::functions::sub(pair)
            },
            _ => EvalResult::Error(
                String::from_str("invalid unary operator ").concat(operator_text(op)),
            ),
        },
    }
}

fn binary_result(op: Operator, l: EvalResult, r: EvalResult) -> (res: EvalResult)
    ensures
        res@ == binary_value(op, l@, r@),
{
    match (l, r) {
        (EvalResult::Error(e), _) => EvalResult::Error(e),
        (_, EvalResult::Error(e)) => EvalResult::Error(e),
        (l, r) => {
            match op {
                Operator::Null => l,
                _ => {
                    let mut pair: Vec<EvalResult> = Vec::new();
                    let ghost lv = l@;
                    let ghost rv = r@;
                    pair.push(l);
                    pair.push(r);
                    assert(crate::parser::value::values(pair@) =~= seq![lv, rv]);
                    match op {
                        Operator::Add => sum(pair),
                        Operator::Subtract => crate::parser::functions::sub(pair),
                        Operator::Multiply => mult(pair),
                        _ => div(pair),
                    }
                },
            }
        },
    }
}

fn evaluate_ref<C: EvalContext>(r: CellRef, path: &mut Vec<CellLocation>, ctx: &C) -> (res:
    EvalResult)
    requires
        ctx.valid(),
    ensures
        final(path)@ == old(path)@,
        res@ == eval_ref(r, old(path)@, ctx.sheet()),
    decreases budget(ctx.sheet(), old(path)@), 0int, ASTNode::Empty,
{
    let loc = r.loc();
    if on_path(path, loc) {
        return EvalResult::Error(String::from_str("#CIRCULAR"));
    }
    let rows: i32 = ctx.num_rows();
    let cols: i32 = ctx.num_cols();
    if !r.is_valid(rows, cols) {
        return EvalResult::Error(String::from_str("#REF"));
    }
    assert(0 < rows * cols <= 0x7fff_ffff * 0x7fff_ffff) by (nonlinear_arith)
        requires
            0 < rows <= 0x7fff_ffff,
            0 < cols <= 0x7fff_ffff,
    ;
    let capacity: u64 = (rows as u64) * (cols as u64);
    if path.len() as u64 >= capacity {
        return EvalResult::Error(String::from_str("#CIRCULAR"));
    }
    match ctx.get_cell(r.row, r.col) {
        Some(cell) => {
            path.push(loc);
            let ast = parse(cell.value.as_str());
            let res = evaluate_internal(&ast, path, ctx);
            path.pop();
            assert(path@ =~= old(path)@);
            res
        },
        None => EvalResult::NonNumeric(String::new()),
    }
}

fn clamp_low(v: i32) -> (r: i32)
    ensures
        r == max_of(v as int, 0),
{
    if v >= 0 {
        v
    } else {
        0
    }
}

fn clamp_high(v: i32, size: i32) -> (r: i32)
    requires
        size > i32::MIN,
    ensures
        r == min_of(v as int, size - 1),
{
    if v <= size - 1 {
        v
    } else {
        size - 1
    }
}

#[verifier::loop_isolation(false)]
fn evaluate_range<C: EvalContext>(
    start: CellRef,
    stop: CellRef,
    path: &mut Vec<CellLocation>,
    ctx: &C,
) -> (res: EvalResult)
    requires
        ctx.valid(),
    ensures
        final(path)@ == old(path)@,
        res@ == eval(
            crate::parser::ast::Ast::Range { start, stop },
            old(path)@,
            ctx.sheet(),
        ),
    decreases budget(ctx.sheet(), old(path)@), 1int, ASTNode::Empty,
{
    let rows: i32 = ctx.num_rows();
    let cols: i32 = ctx.num_cols();
    let mut results: Vec<Box<EvalResult>> = Vec::new();
    if rows <= 0 || cols <= 0 {
        proof {
            let sheet = ctx.sheet();
            let cells = range_cells(start, stop, sheet);
            lemma_cells_of_empty_grid(
                max_of(start.row as int, 0),
                max_of(start.col as int, 0),
                min_of(
                    if stop.row == -1 {
                        sheet.rows - 1
                    } else {
                        stop.row as int
                    },
                    sheet.rows - 1,
                ),
                max_of(start.col as int, 0),
                min_of(stop.col as int, sheet.cols - 1),
                sheet,
            );
            assert(cells.len() == 0);
        }
        let res = EvalResult::List(results);
        proof {
            crate::parser::value::lemma_list_view(res);
            assert(res@->List_0 =~= eval_cells(
                range_cells(start, stop, ctx.sheet()),
                old(path)@,
                ctx.sheet(),
            ));
        }
        return res;
    }
    let last_row: i32 = if stop.is_unbounded() {
        rows - 1
    } else {
        stop.row
    };
    let r0: i32 = clamp_low(start.row);
    let r1: i32 = clamp_high(last_row, rows);
    let c0: i32 = clamp_low(start.col);
    let c1: i32 = clamp_high(stop.col, cols);
    let ghost sheet = ctx.sheet();
    let ghost cells = range_cells(start, stop, sheet);
    let ghost entry = path@;
    let ghost mut done: Seq<CellRef> = Seq::empty();
    assert(crate::parser::value::boxed_values(results@) =~= eval_cells(done, entry, sheet));
    let mut i: i32 = r0;
    while i <= r1
        invariant
            r0 <= i,
            i <= r1 + 1 || i == r0,
            r1 < rows,
            c1 < cols,
            path@ == entry,
            cells == done + cells_from(i as int, c0 as int, r1 as int, c0 as int, c1 as int, sheet),
            results@.len() == done.len(),
            crate::parser::value::boxed_values(results@) == eval_cells(done, entry, sheet),
        decreases r1 - i + 1,
    {
        let mut j: i32 = c0;
        while j <= c1
            invariant
                r0 <= i <= r1,
                c0 <= j,
                j <= c1 + 1 || j == c0,
                r1 < rows,
                c1 < cols,
                path@ == entry,
                cells == done + cells_from(
                    i as int,
                    j as int,
                    r1 as int,
                    c0 as int,
                    c1 as int,
                    sheet,
                ),
                results@.len() == done.len(),
                crate::parser::value::boxed_values(results@) == eval_cells(done, entry, sheet),
            decreases c1 - j + 1,
        {
            match ctx.get_cell(i, j) {
                Some(_) => {
                    let cell_ref = CellRef { row: i, col: j };
                    let res = evaluate_ref(cell_ref, path, ctx);
                    let ghost value = res@;
                    let ghost before = crate::parser::value::boxed_values(results@);
                    results.push(Box::new(res));
                    proof {
                        assert(crate::parser::value::boxed_values(results@) =~= before.push(value));
                        assert(eval_cells(done.push(cell_ref), entry, sheet) =~= eval_cells(
                            done,
                            entry,
                            sheet,
                        ).push(value));
                        let rest = cells_from(
                            i as int,
                            j + 1,
                            r1 as int,
                            c0 as int,
                            c1 as int,
                            sheet,
                        );
                        assert(done + (seq![cell_ref] + rest) =~= done.push(cell_ref) + rest);
                        done = done.push(cell_ref);
                    }
                },
                None => {},
            }
            j = j + 1;
        }
        i = i + 1;
    }
    proof {
        assert(cells_from(i as int, c0 as int, r1 as int, c0 as int, c1 as int, sheet)
            =~= Seq::empty());
        assert(cells =~= done);
    }
    let res = EvalResult::List(results);
    proof {
        crate::parser::value::lemma_list_view(res);
    }
    res
}

/// A grid without positions has no cells.
proof fn lemma_cells_of_empty_grid(
    r: int,
    c: int,
    r1: int,
    c0: int,
    c1: int,
    sheet: crate::models::context::Sheet,
)
    requires
        sheet.rows <= 0 || sheet.cols <= 0,
    ensures
        cells_from(r, c, r1, c0, c1, sheet).len() == 0,
    decreases r1 - r + 1, c1 - c + 1,
{
    if r > r1 {
    } else if c > c1 {
        lemma_cells_of_empty_grid(r + 1, c0, r1, c0, c1, sheet);
    } else {
        lemma_cells_of_empty_grid(r, c + 1, r1, c0, c1, sheet);
    }
}

/// Moves the items of `items` to the end of `into`, in order.
fn splice(into: &mut Vec<EvalResult>, items: Vec<Box<EvalResult>>)
    ensures
        crate::parser::value::values(final(into)@) == crate::parser::value::values(old(into)@)
            + crate::parser::value::boxed_values(items@),
{
    let ghost before = crate::parser::value::values(into@);
    let ghost item_values = crate::parser::value::boxed_values(items@);
    let mut items = items;
    let mut tail: Vec<EvalResult> = Vec::new();
    assert(crate::parser::value::boxed_values(items@) + crate::parser::value::values(
        tail@,
    ).reverse() =~= item_values);
    while items.len() > 0
        invariant
            crate::parser::value::boxed_values(items@) + crate::parser::value::values(
                tail@,
            ).reverse() == item_values,
        decreases items.len(),
    {
        let ghost left = crate::parser::value::boxed_values(items@);
        let ghost held = crate::parser::value::values(tail@);
        let item = items.pop().unwrap();
        tail.push(*item);
        assert(crate::parser::value::boxed_values(items@) =~= left.drop_last());
        assert(crate::parser::value::values(tail@) =~= held.push(left.last()));
        assert(left.drop_last() + held.push(left.last()).reverse() =~= left + held.reverse());
    }
    assert(crate::parser::value::values(tail@).reverse() =~= item_values);
    assert(crate::parser::value::values(into@) + crate::parser::value::values(tail@).reverse()
        =~= before + item_values);
    while tail.len() > 0
        invariant
            crate::parser::value::values(into@) + crate::parser::value::values(tail@).reverse()
                == before + item_values,
        decreases tail.len(),
    {
        let ghost have = crate::parser::value::values(into@);
        let ghost held = crate::parser::value::values(tail@);
        let item = tail.pop().unwrap();
        into.push(item);
        assert(crate::parser::value::values(tail@) =~= held.drop_last());
        assert(crate::parser::value::values(into@) =~= have.push(held.last()));
        assert(have.push(held.last()) + held.drop_last().reverse() =~= have + held.reverse());
    }
    assert(crate::parser::value::values(into@) =~= before + item_values);
}

#[verifier::loop_isolation(false)]
fn evaluate_call<C: EvalContext>(
    name: &String,
    args: &Vec<Box<ASTNode>>,
    path: &mut Vec<CellLocation>,
    ctx: &C,
) -> (res: EvalResult)
    requires
        ctx.valid(),
    ensures
        final(path)@ == old(path)@,
        res@ == call_value(
            name@,
            eval_args(crate::parser::ast::arg_views(args@), old(path)@, ctx.sheet()),
        ),
    decreases budget(ctx.sheet(), old(path)@), 2int, args,
{
    let ghost entry = path@;
    let ghost sheet = ctx.sheet();
    let ghost vals = eval_args(crate::parser::ast::arg_views(args@), entry, sheet);
    let mut evaluated: Vec<EvalResult> = Vec::new();
    assert(crate::parser::value::values(evaluated@) =~= flatten(vals.take(0)));
    let mut i: usize = 0;
    while i < args.len()
        invariant
            i <= args.len(),
            path@ == entry,
            sheet == ctx.sheet(),
            vals == eval_args(crate::parser::ast::arg_views(args@), entry, sheet),
            first_error(vals.take(i as int)) is None,
            crate::parser::value::values(evaluated@) == flatten(vals.take(i as int)),
        decreases args.len() - i,
    {
        let res = evaluate_internal(&args[i], path, ctx);
        let ghost value = res@;
        proof {
            assert(vals.take(i + 1).drop_last() =~= vals.take(i as int));
            assert(vals.take(i + 1).last() == value);
            if res is List {
                crate::parser::value::lemma_list_view(res);
            }
        }
        let ghost before = crate::parser::value::values(evaluated@);
        match res {
            EvalResult::List(items) => {
                splice(&mut evaluated, items);
            },
            EvalResult::Error(msg) => {
                proof {
                    lemma_first_error_prefix(vals, i + 1);
                }
                return EvalResult::Error(msg);
            },
            other => {
                evaluated.push(other);
                assert(crate::parser::value::values(evaluated@) =~= before.push(value));
            },
        }
        i = i + 1;
    }
    assert(vals.take(args.len() as int) =~= vals);
    evaluate_function(name.as_str(), evaluated)
}

fn evaluate_internal<C: EvalContext>(n: &ASTNode, path: &mut Vec<CellLocation>, ctx: &C) -> (res:
    EvalResult)
    requires
        ctx.valid(),
    ensures
        final(path)@ == old(path)@,
        res@ == eval(n@, old(path)@, ctx.sheet()),
    decreases budget(ctx.sheet(), old(path)@), 2int, n,
{
    match n {
        ASTNode::Empty => EvalResult::NonNumeric(String::new()),
        ASTNode::Number(v) => EvalResult::Numeric(*v),
        ASTNode::Text(t) => EvalResult::NonNumeric(t.clone()),
        ASTNode::UnaryExpr { op, operand } => {
            let v = evaluate_internal(operand, path, ctx);
            unary_result(*op, v)
        },
        ASTNode::BinaryExpr { op, lhs, rhs } => {
            let l = evaluate_internal(lhs, path, ctx);
            let r = evaluate_internal(rhs, path, ctx);
            binary_result(*op, l, r)
        },
        ASTNode::Function { name, args } => {
            proof {
                crate::parser::ast::lemma_function_view(*n);
            }
            evaluate_call(name, args, path, ctx)
        },
        ASTNode::Ref(cell_ref) => evaluate_ref(*cell_ref, path, ctx),
        ASTNode::Range { start, stop } => evaluate_range(*start, *stop, path, ctx),
        ASTNode::ParseError(e) => EvalResult::Error(e.clone()),
    }
}

/// An error among the first `k` values is the first error of them all.
proof fn lemma_first_error_prefix(vals: Seq<crate::parser::value::Value>, k: int)
    requires
        0 <= k <= vals.len(),
        first_error(vals.take(k)) is Some,
    ensures
        first_error(vals) == first_error(vals.take(k)),
    decreases vals.len() - k,
{
    if k == vals.len() {
        assert(vals.take(k) =~= vals);
    } else {
        assert(vals.take(k + 1).drop_last() =~= vals.take(k));
        lemma_first_error_prefix(vals, k + 1);
    }
}

/// The text shown for a cell that holds the expression `n`.
///
/// A number is written in decimal, a truth value as `true` or `false`, a
/// text as it is and an error as its code: `#REF` for a reference outside
/// the grid, `#CIRCULAR` for a reference that leads back to a cell that is
/// being evaluated, the function's own code, or the parser's message.
/// Evaluation ends on every grid: a reference is followed only to a cell
/// that is not yet on the path.
pub fn evaluate<C: EvalContext>(n: ASTNode, ctx: &C) -> (shown: String)
    requires
        ctx.valid(),
    ensures
        shown@ == display_of(eval(n@, Seq::empty(), ctx.sheet())),
{
    let mut path: Vec<CellLocation> = Vec::new();
    let res = evaluate_internal(&n, &mut path, ctx);
    match res {
        EvalResult::Numeric(v) => v.render(),
        EvalResult::Bool(b) => if b {
            String::from_str("true")
        } else {
            String::from_str("false")
        },
        EvalResult::NonNumeric(s) => s,
        EvalResult::List(_) => String::new(),
        EvalResult::Error(msg) => msg,
    }
}

/// The canonical form of a text that is no formula: the text of its number
/// where it is a decimal literal, and else the text itself.
pub open spec fn canonical(text: Seq<char>) -> Seq<char> {
    match crate::number::parse_spec(text) {
        Some(n) => crate::number::render_spec(n.units as int),
        None => text,
    }
}

/// A cell whose text is no formula shows the canonical form of its text,
/// whatever the grid holds; and a cell that holds a canonical form shows it
/// unchanged.
pub proof fn lemma_literal_round_trip(text: Seq<char>, sheet: crate::models::context::Sheet)
    requires
        !crate::models::cell::is_formula_text(text),
    ensures
        display_text(text, sheet) == canonical(text),
        !crate::models::cell::is_formula_text(canonical(text)),
        display_text(canonical(text), sheet) == canonical(text),
{
    match crate::number::parse_spec(text) {
        Some(n) => {
            crate::number::lemma_parse_render(n.units as int);
        },
        None => {},
    }
}

/// A reference to a cell on the path is circular and is not followed.
pub proof fn lemma_reference_on_path(
    r: CellRef,
    path: Seq<CellLocation>,
    sheet: crate::models::context::Sheet,
)
    requires
        path.contains(r.spec_loc()),
    ensures
        eval(crate::parser::ast::Ast::Ref(r), path, sheet) == crate::parser::value::Value::Error(
            crate::parser::value::circular_error(),
        ),
{
    assert(eval(crate::parser::ast::Ast::Ref(r), path, sheet) == eval_ref(r, path, sheet));
}

/// A cell whose formula is a reference to the cell itself shows `#CIRCULAR`.
pub proof fn lemma_self_reference(
    r: CellRef,
    text: Seq<char>,
    sheet: crate::models::context::Sheet,
)
    requires
        sheet.text_at(r.row as int, r.col as int) == Some(text),
        crate::parser::parser::parse_text(text) == crate::parser::ast::Ast::Ref(r),
    ensures
        display_text(text, sheet) == crate::parser::value::circular_error(),
{
    let loc = r.spec_loc();
    let empty = Seq::<CellLocation>::empty();
    assert(0 < sheet.rows * sheet.cols) by (nonlinear_arith)
        requires
            0 < sheet.rows,
            0 < sheet.cols,
    ;
    assert(!empty.contains(loc));
    assert(empty.push(loc)[0] == loc);
    assert(empty.push(loc).contains(loc));
    lemma_reference_on_path(r, empty.push(loc), sheet);
    assert(eval_ref(r, empty, sheet) == eval(
        crate::parser::parser::parse_text(text),
        empty.push(loc),
        sheet,
    ));
}

/// A reference to a row or column that the grid does not have, met on a path
/// that does not hold it, evaluates to `#REF`. So does a formula that is
/// such a reference.
pub proof fn lemma_reference_outside_grid(
    r: CellRef,
    path: Seq<CellLocation>,
    sheet: crate::models::context::Sheet,
)
    requires
        !(0 <= r.row < sheet.rows && 0 <= r.col < sheet.cols),
        !path.contains(r.spec_loc()),
    ensures
        eval(crate::parser::ast::Ast::Ref(r), path, sheet) == crate::parser::value::Value::Error(
            crate::parser::value::reference_error(),
        ),
        display_of(eval(crate::parser::ast::Ast::Ref(r), Seq::empty(), sheet))
            == crate::parser::value::reference_error(),
{
    let empty = Seq::<CellLocation>::empty();
    assert(!empty.contains(r.spec_loc()));
    assert(eval(crate::parser::ast::Ast::Ref(r), path, sheet) == eval_ref(r, path, sheet));
    assert(eval(crate::parser::ast::Ast::Ref(r), empty, sheet) == eval_ref(r, empty, sheet));
}

/// The position with the index `idx` in row-by-row order.
pub open spec fn position_of(idx: int, cols: int) -> CellLocation {
    CellLocation { row: (idx / cols) as i32, col: (idx % cols) as i32 }
}

/// A path of distinct cells of the grid that does not hold the cell of a
/// reference into the grid is shorter than the grid has positions: the
/// bound on the length of a path turns no such reference away.
pub proof fn lemma_budget_suffices(
    r: CellRef,
    path: Seq<CellLocation>,
    sheet: crate::models::context::Sheet,
)
    requires
        path.no_duplicates(),
        forall|i: int|
            0 <= i < path.len() ==> sheet.in_grid(
                (#[trigger] path[i]).row as int,
                path[i].col as int,
            ),
        r.spec_is_valid(sheet.rows, sheet.cols),
        !path.contains(r.spec_loc()),
    ensures
        path.len() < sheet.capacity(),
{
    let rows = sheet.rows;
    let cols = sheet.cols;
    assert(0 <= rows * cols) by (nonlinear_arith)
        requires
            0 < rows,
            0 < cols,
    ;
    let indices = vstd::set_lib::set_int_range(0, rows * cols);
    let place = |idx: int| position_of(idx, cols);
    let grid = indices.map(place);
    vstd::set_lib::lemma_int_range(0, rows * cols);
    vstd::set_lib::lemma_map_size_bound(indices, grid, place);
    let walked = path.push(r.spec_loc());
    assert(walked.no_duplicates()) by {
        assert forall|a: int, b: int|
            0 <= a < walked.len() && 0 <= b < walked.len() && a != b implies walked[a]
            != walked[b] by {
            if a < path.len() && b < path.len() {
                assert(path[a] != path[b]);
            } else if a < path.len() {
                assert(path[a] == walked[a]);
            } else {
                assert(path[b] == walked[b]);
            }
        }
    }
    walked.unique_seq_to_set();
    assert(walked.to_set().subset_of(grid)) by {
        assert forall|c: CellLocation| walked.to_set().contains(c) implies grid.contains(c) by {
            let a = choose|a: int| 0 <= a < walked.len() && walked[a] == c;
            if a < path.len() {
                assert(path[a] == c);
            }
            assert(0 <= c.row < rows && 0 <= c.col < cols);
            let idx = c.row * cols + c.col;
            assert(0 <= idx < rows * cols) by (nonlinear_arith)
                requires
                    0 <= c.row < rows,
                    0 <= c.col < cols,
                    idx == c.row * cols + c.col,
            ;
            vstd::arithmetic::div_mod::lemma_fundamental_div_mod_converse(
                idx,
                cols,
                c.row as int,
                c.col as int,
            );
            assert(indices.contains(idx));
            assert(place(idx) == c);
        }
    }
    vstd::set_lib::lemma_len_subset(walked.to_set(), grid);
}

} // verus!
