//! The functions that formulas can call, and the arithmetic behind the
//! operators.
use crate::number::Number;
use crate::parser::ast::Operator;
use crate::parser::value::EvalResult;
use crate::text::chars_of;
use vstd::prelude::*;
use vstd::string::StringExecFns;

verus! {

/// The numbers among `args`, in order.
pub open spec fn numbers_of(args: Seq<crate::parser::value::Value>) -> Seq<Number>
    decreases args.len(),
{
    if args.len() == 0 {
        Seq::empty()
    } else {
        match args.last() {
            crate::parser::value::Value::Numeric(n) => numbers_of(args.drop_last()).push(n),
            _ => numbers_of(args.drop_last()),
        }
    }
}

/// The truth values among `args`, in order.
pub open spec fn bools_of(args: Seq<crate::parser::value::Value>) -> Seq<bool>
    decreases args.len(),
{
    if args.len() == 0 {
        Seq::empty()
    } else {
        match args.last() {
            crate::parser::value::Value::Bool(b) => bools_of(args.drop_last()).push(b),
            _ => bools_of(args.drop_last()),
        }
    }
}

/// One step of arithmetic: `a op b`. Fails with `#DIV/0!` on a division by
/// zero and with `#NUM!` where the result cannot be stored. `Null` keeps `a`.
pub open spec fn arith(op: Operator, a: Number, b: Number) -> Result<Number, Seq<char>> {
    let r = match op {
        Operator::Add => a.spec_plus(b),
        Operator::Subtract => a.spec_minus(b),
        Operator::Multiply => a.spec_times(b),
        Operator::Divide => a.spec_divided_by(b),
        Operator::Null => Some(a),
    };
    match r {
        Some(n) => Ok(n),
        None => if op == Operator::Divide && b.units == 0 {
            Err(crate::parser::value::division_error())
        } else {
            Err(crate::parser::value::number_error())
        },
    }
}

/// `nums` folded from the left with `op`, starting from the first number:
/// `((n0 op n1) op n2) ...`. No numbers give zero. The first step that
/// fails decides the result.
pub open spec fn reduce(nums: Seq<Number>, op: Operator) -> Result<Number, Seq<char>>
    decreases nums.len(),
{
    if nums.len() == 0 {
        Ok(Number { units: 0 })
    } else if nums.len() == 1 {
        Ok(nums[0])
    } else {
        match reduce(nums.drop_last(), op) {
            Ok(acc) => arith(op, acc, nums.last()),
            Err(e) => Err(e),
        }
    }
}

/// The value that shows the outcome of arithmetic.
pub open spec fn numeric_or_error(r: Result<Number, Seq<char>>) -> crate::parser::value::Value {
    match r {
        Ok(n) => crate::parser::value::Value::Numeric(n),
        Err(e) => crate::parser::value::Value::Error(e),
    }
}

/// The numbers among `args` folded with `op`; other arguments are passed over.
pub open spec fn fold_spec(args: Seq<crate::parser::value::Value>, op: Operator)
    -> crate::parser::value::Value {
    numeric_or_error(reduce(numbers_of(args), op))
}

/// The sum of the numbers among `args` divided by how many they are;
/// `#DIV/0!` where there is none.
pub open spec fn avg_spec(args: Seq<crate::parser::value::Value>) -> crate::parser::value::Value {
    let nums = numbers_of(args);
    match reduce(nums, Operator::Add) {
        Ok(total) => match Number::spec_from_int(nums.len() as int) {
            Some(n) => numeric_or_error(arith(Operator::Divide, total, n)),
            None => crate::parser::value::Value::Error(crate::parser::value::number_error()),
        },
        Err(e) => crate::parser::value::Value::Error(e),
    }
}

/// `sorted` with `x` put behind the last element that is not above it.
pub open spec fn insert_sorted(sorted: Seq<Number>, x: Number) -> Seq<Number>
    decreases sorted.len(),
{
    if sorted.len() == 0 {
        seq![x]
    } else if sorted.last().units <= x.units {
        sorted.push(x)
    } else {
        insert_sorted(sorted.drop_last(), x).push(sorted.last())
    }
}

/// `nums` in ascending order.
pub open spec fn sort_spec(nums: Seq<Number>) -> Seq<Number>
    decreases nums.len(),
{
    if nums.len() == 0 {
        Seq::empty()
    } else {
        insert_sorted(sort_spec(nums.drop_last()), nums.last())
    }
}

/// The number at position `len / 2` of the numbers among `args` in
/// ascending order; the empty text where there is no number.
pub open spec fn median_spec(args: Seq<crate::parser::value::Value>)
    -> crate::parser::value::Value {
    let nums = numbers_of(args);
    if nums.len() == 0 {
        crate::parser::value::Value::NonNumeric(Seq::empty())
    } else {
        crate::parser::value::Value::Numeric(sort_spec(nums)[(nums.len() / 2) as int])
    }
}

/// How many arguments there are, of whatever kind.
pub open spec fn count_spec(args: Seq<crate::parser::value::Value>)
    -> crate::parser::value::Value {
    match Number::spec_from_int(args.len() as int) {
        Some(n) => crate::parser::value::Value::Numeric(n),
        None => crate::parser::value::Value::Error(crate::parser::value::number_error()),
    }
}

/// Whether the one argument, a whole number, is even; `#VALUE!` for any
/// other argument list.
pub open spec fn is_even_spec(args: Seq<crate::parser::value::Value>)
    -> crate::parser::value::Value {
    if args.len() != 1 {
        crate::parser::value::Value::Error(crate::parser::value::value_error())
    } else {
        match args[0] {
            crate::parser::value::Value::Numeric(n) => if n.spec_is_integral() {
                crate::parser::value::Value::Bool(n.spec_is_even())
            } else {
                crate::parser::value::Value::Error(crate::parser::value::value_error())
            },
            _ => crate::parser::value::Value::Error(crate::parser::value::value_error()),
        }
    }
}

/// Whether the one argument, a whole number, is odd; `#VALUE!` for any other
/// argument list.
pub open spec fn is_odd_spec(args: Seq<crate::parser::value::Value>)
    -> crate::parser::value::Value {
    match is_even_spec(args) {
        crate::parser::value::Value::Bool(b) => crate::parser::value::Value::Bool(!b),
        other => other,
    }
}

/// Whether every truth value among `args` is true.
pub open spec fn and_spec(args: Seq<crate::parser::value::Value>) -> crate::parser::value::Value {
    let bools = bools_of(args);
    crate::parser::value::Value::Bool(forall|i: int| 0 <= i < bools.len() ==> bools[i])
}

/// Whether some truth value among `args` is true.
pub open spec fn or_spec(args: Seq<crate::parser::value::Value>) -> crate::parser::value::Value {
    let bools = bools_of(args);
    crate::parser::value::Value::Bool(exists|i: int| 0 <= i < bools.len() && bools[i])
}

/// The capital of a small Latin letter; any other character itself.
pub open spec fn upper_char(c: char) -> char {
    if 'a' <= c <= 'z' {
        (c as int - 32) as char
    } else {
        c
    }
}

/// `name` with its small Latin letters made capitals.
pub open spec fn upper_text(name: Seq<char>) -> Seq<char> {
    Seq::new(name.len(), |i: int| upper_char(name[i]))
}

/// The value of a call of the function `name`, whose name is read without
/// regard to case, on `args`. An unknown function gives the empty text.
pub open spec fn function_value(name: Seq<char>, args: Seq<crate::parser::value::Value>)
    -> crate::parser::value::Value {
    let upper = upper_text(name);
    if upper == "SUM"@ {
        fold_spec(args, Operator::Add)
    } else if upper == "SUB"@ {
        fold_spec(args, Operator::Subtract)
    } else if upper == "MULT"@ {
        fold_spec(args, Operator::Multiply)
    } else if upper == "DIV"@ {
        fold_spec(args, Operator::Divide)
    } else if upper == "AVG"@ {
        avg_spec(args)
    } else if upper == "MEDIAN"@ {
        median_spec(args)
    } else if upper == "COUNT"@ {
        count_spec(args)
    } else if upper == "ISEVEN"@ {
        is_even_spec(args)
    } else if upper == "ISODD"@ {
        is_odd_spec(args)
    } else if upper == "AND"@ {
        and_spec(args)
    } else if upper == "OR"@ {
        or_spec(args)
    } else {
        crate::parser::value::Value::NonNumeric(Seq::empty())
    }
}

fn numeric_values(args: &Vec<EvalResult>) -> (nums: Vec<Number>)
    ensures
        nums@ == numbers_of(crate::parser::value::values(args@)),
{
    let ghost vals = crate::parser::value::values(args@);
    let mut nums: Vec<Number> = Vec::new();
    let mut i: usize = 0;
    while i < args.len()
        invariant
            i <= args.len(),
            vals == crate::parser::value::values(args@),
            nums@ == numbers_of(vals.take(i as int)),
        decreases args.len() - i,
    {
        proof {
            assert(vals.take(i + 1).drop_last() =~= vals.take(i as int));
            assert(vals.take(i + 1).last() == crate::parser::value::value_of(args@[i as int]));
        }
        match &args[i] {
            EvalResult::Numeric(n) => {
                nums.push(*n);
            },
            _ => {},
        }
        i = i + 1;
    }
    assert(vals.take(args.len() as int) =~= vals);
    nums
}

fn bool_values(args: &Vec<EvalResult>) -> (bools: Vec<bool>)
    ensures
        bools@ == bools_of(crate::parser::value::values(args@)),
{
    let ghost vals = crate::parser::value::values(args@);
    let mut bools: Vec<bool> = Vec::new();
    let mut i: usize = 0;
    while i < args.len()
        invariant
            i <= args.len(),
            vals == crate::parser::value::values(args@),
            bools@ == bools_of(vals.take(i as int)),
        decreases args.len() - i,
    {
        proof {
            assert(vals.take(i + 1).drop_last() =~= vals.take(i as int));
            assert(vals.take(i + 1).last() == crate::parser::value::value_of(args@[i as int]));
        }
        match &args[i] {
            EvalResult::Bool(b) => {
                bools.push(*b);
            },
            _ => {},
        }
        i = i + 1;
    }
    assert(vals.take(args.len() as int) =~= vals);
    bools
}

fn error_code(code: &str) -> (r: EvalResult)
    ensures
        r@ == crate::parser::value::Value::Error(code@),
{
    EvalResult::Error(String::from_str(code))
}

fn apply(op: Operator, a: Number, b: Number) -> (r: Result<Number, EvalResult>)
    ensures
        match arith(op, a, b) {
            Ok(n) => r == Ok::<Number, EvalResult>(n),
            Err(e) => r is Err && r->Err_0@ == crate::parser::value::Value::Error(e),
        },
{
    let outcome = match op {
        Operator::Add => a.plus(b),
        Operator::Subtract => a.minus(b),
        Operator::Multiply => a.times(b),
        Operator::Divide => a.divided_by(b),
        Operator::Null => Some(a),
    };
    match outcome {
        Some(n) => Ok(n),
        None => {
            let by_zero: bool = match op {
                Operator::Divide => b.units == 0,
                _ => false,
            };
            if by_zero {
                Err(error_code("#DIV/0!"))
            } else {
                Err(error_code("#NUM!"))
            }
        },
    }
}

fn fold_numbers(nums: &Vec<Number>, op: Operator) -> (r: Result<Number, EvalResult>)
    ensures
        match reduce(nums@, op) {
            Ok(n) => r == Ok::<Number, EvalResult>(n),
            Err(e) => r is Err && r->Err_0@ == crate::parser::value::Value::Error(e),
        },
{
    if nums.len() == 0 {
        return Ok(Number::zero());
    }
    let mut acc: Number = nums[0];
    let mut i: usize = 1;
    assert(nums@.take(1).len() == 1);
    while i < nums.len()
        invariant
            1 <= i <= nums.len(),
            reduce(nums@.take(i as int), op) == Ok::<Number, Seq<char>>(acc),
        decreases nums.len() - i,
    {
        proof {
            assert(nums@.take(i + 1).drop_last() =~= nums@.take(i as int));
            assert(nums@.take(i + 1).last() == nums@[i as int]);
        }
        match apply(op, acc, nums[i]) {
            Ok(n) => {
                acc = n;
            },
            Err(e) => {
                proof {
                    lemma_reduce_error(nums@, op, i + 1);
                }
                return Err(e);
            },
        }
        i = i + 1;
    }
    assert(nums@.take(nums.len() as int) =~= nums@);
    Ok(acc)
}

/// A fold that has failed on the first `k` numbers fails in the same way on
/// all of them.
proof fn lemma_reduce_error(nums: Seq<Number>, op: Operator, k: int)
    requires
        0 <= k <= nums.len(),
        reduce(nums.take(k), op) is Err,
    ensures
        reduce(nums, op) == reduce(nums.take(k), op),
    decreases nums.len() - k,
{
    if k == nums.len() {
        assert(nums.take(k) =~= nums);
    } else {
        assert(nums.take(k + 1).drop_last() =~= nums.take(k));
        assert(k >= 2);
        lemma_reduce_error(nums, op, k + 1);
    }
}

fn fold(args: &Vec<EvalResult>, op: Operator) -> (r: EvalResult)
    ensures
        r@ == fold_spec(crate::parser::value::values(args@), op),
{
    let nums = numeric_values(args);
    match fold_numbers(&nums, op) {
        Ok(n) => EvalResult::Numeric(n),
        Err(e) => e,
    }
}

/// The sum of the numbers among `args`; no number gives zero.
pub fn sum(args: Vec<EvalResult>) -> (r: EvalResult)
    ensures
        r@ == fold_spec(crate::parser::value::values(args@), Operator::Add),
{
    fold(&args, Operator::Add)
}

/// The first number among `args` less all the numbers after it.
pub fn sub(args: Vec<EvalResult>) -> (r: EvalResult)
    ensures
        r@ == fold_spec(crate::parser::value::values(args@), Operator::Subtract),
{
    fold(&args, Operator::Subtract)
}

/// The product of the numbers among `args`.
pub fn mult(args: Vec<EvalResult>) -> (r: EvalResult)
    ensures
        r@ == fold_spec(crate::parser::value::values(args@), Operator::Multiply),
{
    fold(&args, Operator::Multiply)
}

/// The first number among `args` divided by all the numbers after it.
pub fn div(args: Vec<EvalResult>) -> (r: EvalResult)
    ensures
        r@ == fold_spec(crate::parser::value::values(args@), Operator::Divide),
{
    fold(&args, Operator::Divide)
}

/// The mean of the numbers among `args`; `#DIV/0!` where there is none.
pub fn avg(args: Vec<EvalResult>) -> (r: EvalResult)
    ensures
        r@ == avg_spec(crate::parser::value::values(args@)),
{
    let nums = numeric_values(&args);
    match fold_numbers(&nums, Operator::Add) {
        Ok(total) => match Number::from_count(nums.len()) {
            Some(n) => match apply(Operator::Divide, total, n) {
                Ok(mean) => EvalResult::Numeric(mean),
                Err(e) => e,
            },
            None => error_code("#NUM!"),
        },
        Err(e) => e,
    }
}

fn insert(sorted: &mut Vec<Number>, x: Number)
    ensures
        final(sorted)@ == insert_sorted(old(sorted)@, x),
{
    let mut above: Vec<Number> = Vec::new();
    while sorted.len() > 0 && sorted[sorted.len() - 1].units > x.units
        invariant
            insert_sorted(old(sorted)@, x) == insert_sorted(sorted@, x) + above@.reverse(),
        decreases sorted.len(),
    {
        let ghost before = sorted@;
        let ghost held = above@;
        let top: Number = sorted[sorted.len() - 1];
        sorted.pop();
        above.push(top);
        assert(insert_sorted(before, x) =~= insert_sorted(sorted@, x).push(top));
        assert(above@.reverse() =~= seq![top] + held.reverse());
        assert(insert_sorted(sorted@, x).push(top) + held.reverse() =~= insert_sorted(sorted@, x)
            + above@.reverse());
    }
    let ghost target = insert_sorted(old(sorted)@, x);
    sorted.push(x);
    while above.len() > 0
        invariant
            target == sorted@ + above@.reverse(),
        decreases above.len(),
    {
        let ghost held = above@;
        let ghost low = sorted@;
        let top: Number = above[above.len() - 1];
        above.pop();
        sorted.push(top);
        assert(held.reverse() =~= seq![top] + above@.reverse());
        assert(low + held.reverse() =~= sorted@ + above@.reverse());
    }
    assert(above@.reverse() =~= Seq::<Number>::empty());
    assert(sorted@ + Seq::<Number>::empty() =~= sorted@);
}

fn sort(nums: &Vec<Number>) -> (sorted: Vec<Number>)
    ensures
        sorted@ == sort_spec(nums@),
{
    let mut sorted: Vec<Number> = Vec::new();
    let mut i: usize = 0;
    while i < nums.len()
        invariant
            i <= nums.len(),
            sorted@ == sort_spec(nums@.take(i as int)),
        decreases nums.len() - i,
    {
        proof {
            assert(nums@.take(i + 1).drop_last() =~= nums@.take(i as int));
            assert(nums@.take(i + 1).last() == nums@[i as int]);
        }
        insert(&mut sorted, nums[i]);
        i = i + 1;
    }
    assert(nums@.take(nums.len() as int) =~= nums@);
    sorted
}

/// Sorting keeps the number of elements.
proof fn lemma_sort_len(nums: Seq<Number>)
    ensures
        sort_spec(nums).len() == nums.len(),
    decreases nums.len(),
{
    if nums.len() > 0 {
        lemma_sort_len(nums.drop_last());
        lemma_insert_len(sort_spec(nums.drop_last()), nums.last());
    }
}

proof fn lemma_insert_len(sorted: Seq<Number>, x: Number)
    ensures
        insert_sorted(sorted, x).len() == sorted.len() + 1,
    decreases sorted.len(),
{
    if sorted.len() > 0 && sorted.last().units > x.units {
        lemma_insert_len(sorted.drop_last(), x);
    }
}

/// The middle of the numbers among `args` in ascending order: the number at
/// position `len / 2`. Without numbers the result is the empty text.
pub fn median(args: Vec<EvalResult>) -> (r: EvalResult)
    ensures
        r@ == median_spec(crate::parser::value::values(args@)),
{
    let nums = numeric_values(&args);
    if nums.len() == 0 {
        return EvalResult::NonNumeric(String::new());
    }
    let sorted = sort(&nums);
    proof {
        lemma_sort_len(nums@);
    }
    EvalResult::Numeric(sorted[sorted.len() / 2])
}

/// The number of arguments, whatever they are.
pub fn count(args: Vec<EvalResult>) -> (r: EvalResult)
    ensures
        r@ == count_spec(crate::parser::value::values(args@)),
{
    match Number::from_count(args.len()) {
        Some(n) => EvalResult::Numeric(n),
        None => error_code("#NUM!"),
    }
}

/// Whether the single argument, which must be a whole number, is even.
/// Any other argument list gives `#VALUE!`.
pub fn is_even(args: Vec<EvalResult>) -> (r: EvalResult)
    ensures
        r@ == is_even_spec(crate::parser::value::values(args@)),
{
    if args.len() != 1 {
        return error_code("#VALUE!");
    }
    match &args[0] {
        EvalResult::Numeric(n) => {
            if !n.is_integral() {
                return error_code("#VALUE!");
            }
            EvalResult::Bool(n.is_even())
        },
        _ => error_code("#VALUE!"),
    }
}

/// Whether the single argument, which must be a whole number, is odd.
/// Any other argument list gives `#VALUE!`.
pub fn is_odd(args: Vec<EvalResult>) -> (r: EvalResult)
    ensures
        r@ == is_odd_spec(crate::parser::value::values(args@)),
{
    match is_even(args) {
        EvalResult::Bool(b) => EvalResult::Bool(!b),
        x => x,
    }
}

/// Whether all truth values among `args` are true; other arguments are
/// passed over, and no truth value at all gives true.
pub fn and(args: Vec<EvalResult>) -> (r: EvalResult)
    ensures
        r@ == and_spec(crate::parser::value::values(args@)),
{
    let bools = bool_values(&args);
    let mut all: bool = true;
    let mut i: usize = 0;
    while i < bools.len()
        invariant
            i <= bools.len(),
            all == (forall|k: int| 0 <= k < i ==> bools@[k]),
        decreases bools.len() - i,
    {
        all = all && bools[i];
        i = i + 1;
    }
    EvalResult::Bool(all)
}

/// Whether some truth value among `args` is true; other arguments are passed
/// over, and no truth value at all gives false.
pub fn or(args: Vec<EvalResult>) -> (r: EvalResult)
    ensures
        r@ == or_spec(crate::parser::value::values(args@)),
{
    let bools = bool_values(&args);
    let mut any: bool = false;
    let mut i: usize = 0;
    while i < bools.len()
        invariant
            i <= bools.len(),
            any == (exists|k: int| 0 <= k < i && bools@[k]),
        decreases bools.len() - i,
    {
        any = any || bools[i];
        i = i + 1;
    }
    EvalResult::Bool(any)
}

fn upper(c: char) -> (u: char)
    ensures
        u == upper_char(c),
{
    if c >= 'a' && c <= 'z' {
        ((c as u32 - 32) as u8) as char
    } else {
        c
    }
}

/// Whether `name`, read without regard to case, is `target`.
fn is_name(name: &Vec<char>, target: &str) -> (b: bool)
    ensures
        b == (upper_text(name@) == target@),
{
    let want = chars_of(target);
    if want.len() != name.len() {
        assert(upper_text(name@).len() != target@.len());
        return false;
    }
    let mut i: usize = 0;
    while i < name.len()
        invariant
            i <= name.len() == want.len(),
            want@ == target@,
            forall|k: int| 0 <= k < i ==> upper_text(name@)[k] == want@[k],
        decreases name.len() - i,
    {
        if upper(name[i]) != want[i] {
            assert(upper_text(name@)[i as int] != target@[i as int]);
            return false;
        }
        i = i + 1;
    }
    assert(upper_text(name@) =~= target@);
    true
}

/// Calls the function `name` on `args`. The name is read without regard to
/// case; an unknown name gives the empty text.
pub fn evaluate_function(name: &str, args: Vec<EvalResult>) -> (r: EvalResult)
    ensures
        r@ == function_value(name@, crate::parser::value::values(args@)),
{
    let n = chars_of(name);
    if is_name(&n, "SUM") {
        sum(args)
    } else if is_name(&n, "SUB") {
        self::sub(args)
    } else if is_name(&n, "MULT") {
        mult(args)
    } else if is_name(&n, "DIV") {
        div(args)
    } else if is_name(&n, "AVG") {
        avg(args)
    } else if is_name(&n, "MEDIAN") {
        median(args)
    } else if is_name(&n, "COUNT") {
        count(args)
    } else if is_name(&n, "ISEVEN") {
        is_even(args)
    } else if is_name(&n, "ISODD") {
        is_odd(args)
    } else if is_name(&n, "AND") {
        and(args)
    } else if is_name(&n, "OR") {
        or(args)
    } else {
        EvalResult::NonNumeric(String::new())
    }
}

/// Whether no number of `s` is above a later one.
pub open spec fn ascending(s: Seq<Number>) -> bool {
    forall|i: int, j: int| 0 <= i <= j < s.len() ==> s[i].units <= s[j].units
}

/// Putting a number into an ascending list leaves it ascending and adds the
/// number to what it holds.
proof fn lemma_insert_sorted(sorted: Seq<Number>, x: Number)
    requires
        ascending(sorted),
    ensures
        ascending(insert_sorted(sorted, x)),
        insert_sorted(sorted, x).to_multiset() == sorted.to_multiset().insert(x),
        forall|i: int|
            0 <= i < insert_sorted(sorted, x).len() ==> #[trigger] insert_sorted(sorted, x)[i] == x
                || sorted.contains(insert_sorted(sorted, x)[i]),
    decreases sorted.len(),
{
    broadcast use vstd::seq_lib::group_to_multiset_ensures;

    let r = insert_sorted(sorted, x);
    if sorted.len() == 0 {
        assert(sorted.to_multiset() =~= vstd::multiset::Multiset::empty());
        assert(r =~= Seq::<Number>::empty().push(x));
        assert(sorted =~= Seq::<Number>::empty());
    } else if sorted.last().units <= x.units {
        assert forall|i: int, j: int| 0 <= i <= j < r.len() implies r[i].units <= r[j].units by {
            if j < sorted.len() {
                assert(sorted[i].units <= sorted[j].units);
            } else if i < sorted.len() {
                assert(sorted[i].units <= sorted[sorted.len() - 1].units);
            }
        }
        assert forall|i: int| 0 <= i < r.len() implies #[trigger] r[i] == x || sorted.contains(
            r[i],
        ) by {
            if i < sorted.len() {
                assert(sorted[i] == r[i]);
            }
        }
    } else {
        let rest = sorted.drop_last();
        let last = sorted.last();
        assert(ascending(rest)) by {
            assert forall|i: int, j: int| 0 <= i <= j < rest.len() implies rest[i].units
                <= rest[j].units by {
                assert(sorted[i].units <= sorted[j].units);
            }
        }
        lemma_insert_sorted(rest, x);
        let inner = insert_sorted(rest, x);
        assert(r == inner.push(last));
        assert(sorted =~= rest.push(last));
        assert(rest.to_multiset().insert(x).insert(last) =~= rest.to_multiset().insert(
            last,
        ).insert(x));
        assert forall|i: int| 0 <= i < inner.len() implies inner[i].units <= last.units by {
            if inner[i] != x {
                assert(rest.contains(inner[i]));
                let k = choose|k: int| 0 <= k < rest.len() && rest[k] == inner[i];
                assert(sorted[k].units <= sorted[sorted.len() - 1].units);
            }
        }
        assert forall|i: int, j: int| 0 <= i <= j < r.len() implies r[i].units <= r[j].units by {
            if j < inner.len() {
                assert(inner[i].units <= inner[j].units);
            } else if i < inner.len() {
                assert(inner[i].units <= last.units);
            }
        }
        assert forall|i: int| 0 <= i < r.len() implies #[trigger] r[i] == x || sorted.contains(
            r[i],
        ) by {
            if i < inner.len() {
                if inner[i] != x {
                    let k = choose|k: int| 0 <= k < rest.len() && rest[k] == inner[i];
                    assert(sorted[k] == r[i]);
                }
            } else {
                assert(sorted[sorted.len() - 1] == r[i]);
            }
        }
    }
}

/// `sort_spec` sorts: its result is ascending and holds the numbers of
/// `nums`, each as often as `nums` does. There is one such list, so the
/// median is the number at the middle position of the numbers in ascending
/// order, however they are sorted.
pub proof fn lemma_sort_spec(nums: Seq<Number>)
    ensures
        ascending(sort_spec(nums)),
        sort_spec(nums).to_multiset() == nums.to_multiset(),
        sort_spec(nums).len() == nums.len(),
    decreases nums.len(),
{
    broadcast use vstd::seq_lib::group_to_multiset_ensures;

    lemma_sort_len(nums);
    if nums.len() == 0 {
        assert(sort_spec(nums) =~= nums);
    } else {
        lemma_sort_spec(nums.drop_last());
        lemma_insert_sorted(sort_spec(nums.drop_last()), nums.last());
        assert(nums =~= nums.drop_last().push(nums.last()));
    }
}

} // verus!
