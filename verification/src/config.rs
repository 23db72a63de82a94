//! The parameters of a measurement series and the combinations of their
//! values that the series measures, one solver run per combination.

use itertools::Itertools;
use vstd::prelude::*;

verus! {

/// How the value lists of the parameters are combined into runs.
#[derive(PartialEq, Eq, Structural, Clone, Copy, Debug)]
pub enum Operation {
    /// The i-th run takes the i-th value of every parameter; the series
    /// stops with the shortest list.
    Zip,
    /// Every choice of one value per parameter is one run.
    Cartesian,
}

/// One swept parameter: its name and the list of its values, each value
/// given by its TOML text.
pub struct Parameter {
    pub name: String,
    pub values: Vec<String>,
}

/// The value that one run gives one parameter: the parameter's name, the
/// position of the value in the parameter's list, and the value's text.
pub struct ParameterChoice {
    pub name: String,
    pub index: usize,
    pub value: String,
}

/// The part of a measurement configuration that decides the runs.
pub struct MeasurementConfig {
    pub operation: Operation,
    pub parameters: Vec<Parameter>,
}

/// A parameter as a mathematical value: name and value texts.
pub type ParameterModel = (Seq<char>, Seq<Seq<char>>);

/// A parameter choice as a mathematical value: name, position, value text.
pub type ChoiceModel = (Seq<char>, usize, Seq<char>);

impl DeepView for Parameter {
    type V = ParameterModel;

    open spec fn deep_view(&self) -> ParameterModel {
        (self.name@, self.values.deep_view())
    }
}

impl DeepView for ParameterChoice {
    type V = ChoiceModel;

    open spec fn deep_view(&self) -> ChoiceModel {
        (self.name@, self.index, self.value@)
    }
}

// ---------------------------------------------------------------------
// The cartesian product of index lists, in the order in which
// `Itertools::multi_cartesian_product` yields it: the first list varies
// slowest and the last list fastest.
// ---------------------------------------------------------------------

/// Every tuple of `tails` with `heads[i]` put in front, for each `i` in turn.
pub open spec fn prepend_each(heads: Seq<usize>, tails: Seq<Seq<usize>>) -> Seq<Seq<usize>>
    decreases heads.len(),
{
    if heads.len() == 0 {
        Seq::empty()
    } else {
        tails.map_values(|t: Seq<usize>| seq![heads[0]] + t) + prepend_each(
            heads.drop_first(),
            tails,
        )
    }
}

/// The n-ary cartesian product of `lists`; the product of no lists holds
/// one empty tuple.
pub open spec fn cartesian(lists: Seq<Seq<usize>>) -> Seq<Seq<usize>>
    decreases lists.len(),
{
    if lists.len() == 0 {
        seq![Seq::empty()]
    } else {
        prepend_each(lists[0], cartesian(lists.drop_first()))
    }
}

/// The product of the lengths of `lists`.
pub open spec fn lengths_product(lists: Seq<Seq<usize>>) -> nat
    decreases lists.len(),
{
    if lists.len() == 0 {
        1
    } else {
        lists[0].len() * lengths_product(lists.drop_first())
    }
}

/// The position of the tuple `idx` (one position per list) in
/// `cartesian(lists)`: a mixed-radix number with the last list as the
/// lowest digit.
pub open spec fn cartesian_rank(lists: Seq<Seq<usize>>, idx: Seq<usize>) -> int
    decreases lists.len(),
{
    if lists.len() == 0 {
        0
    } else {
        idx[0] * lengths_product(lists.drop_first()) + cartesian_rank(
            lists.drop_first(),
            idx.drop_first(),
        )
    }
}

/// `idx` chooses one position in each list of `lists`.
pub open spec fn valid_choice(lists: Seq<Seq<usize>>, idx: Seq<usize>) -> bool {
    &&& idx.len() == lists.len()
    &&& forall|j: int| 0 <= j < idx.len() ==> idx[j] < lists[j].len()
}

// ---------------------------------------------------------------------
// The measurement series.
// ---------------------------------------------------------------------

/// The list `0, 1, .., n - 1` of positions in a list of length `n`.
pub open spec fn index_range(n: nat) -> Seq<usize> {
    Seq::new(n, |i: int| i as usize)
}

/// For each parameter, the positions of its values.
pub open spec fn value_ranges(params: Seq<ParameterModel>) -> Seq<Seq<usize>> {
    Seq::new(params.len(), |j: int| index_range(params[j].1.len()))
}

/// The run that gives parameter `j` the value at position `idx[j]`.
pub open spec fn combination(params: Seq<ParameterModel>, idx: Seq<usize>) -> Seq<ChoiceModel> {
    Seq::new(params.len(), |j: int| (params[j].0, idx[j], params[j].1[idx[j] as int]))
}

/// The number of values of the parameter with the shortest list (of no
/// parameters: 0).
pub open spec fn min_value_count(params: Seq<ParameterModel>) -> nat
    decreases params.len(),
{
    if params.len() == 0 {
        0
    } else if params.len() == 1 {
        params[0].1.len()
    } else {
        let rest = min_value_count(params.drop_last());
        if params.last().1.len() < rest {
            params.last().1.len()
        } else {
            rest
        }
    }
}

/// The product of the numbers of values of all parameters (of no
/// parameters: 1).
pub open spec fn value_count_product(params: Seq<ParameterModel>) -> nat
    decreases params.len(),
{
    if params.len() == 0 {
        1
    } else {
        params[0].1.len() * value_count_product(params.drop_first())
    }
}

/// The position of the run that gives parameter `j` its value at position
/// `idx[j]` in a cartesian series.
pub open spec fn run_position(params: Seq<ParameterModel>, idx: Seq<usize>) -> int {
    cartesian_rank(value_ranges(params), idx)
}

/// The choice of position `i` in each of `n` lists.
pub open spec fn same_position(n: nat, i: int) -> Seq<usize> {
    Seq::new(n, |j: int| i as usize)
}

/// The runs of a zipped series: run `i` takes the `i`-th value of every
/// parameter.
pub open spec fn zip_series(params: Seq<ParameterModel>) -> Seq<Seq<ChoiceModel>> {
    Seq::new(
        min_value_count(params),
        |i: int| combination(params, same_position(params.len(), i)),
    )
}

/// The runs of a cartesian series, in the order of the cartesian product
/// of the value positions.
pub open spec fn cartesian_series(params: Seq<ParameterModel>) -> Seq<Seq<ChoiceModel>> {
    cartesian(value_ranges(params)).map_values(|idx: Seq<usize>| combination(params, idx))
}

/// The runs of a measurement series.
pub open spec fn measurement_series(operation: Operation, params: Seq<ParameterModel>) -> Seq<
    Seq<ChoiceModel>,
> {
    match operation {
        Operation::Zip => zip_series(params),
        Operation::Cartesian => cartesian_series(params),
    }
}

// ---------------------------------------------------------------------
// Facts about the cartesian product.
// ---------------------------------------------------------------------

proof fn lemma_prepend_each_len(heads: Seq<usize>, tails: Seq<Seq<usize>>)
    ensures
        prepend_each(heads, tails).len() == heads.len() * tails.len(),
    decreases heads.len(),
{
    if heads.len() > 0 {
        lemma_prepend_each_len(heads.drop_first(), tails);
        assert(heads.len() * tails.len() == tails.len() + (heads.len() - 1) * tails.len())
            by (nonlinear_arith);
    }
}

proof fn lemma_prepend_each_index(heads: Seq<usize>, tails: Seq<Seq<usize>>, i: int, r: int)
    requires
        0 <= i < heads.len(),
        0 <= r < tails.len(),
    ensures
        0 <= i * tails.len() + r < heads.len() * tails.len(),
        prepend_each(heads, tails)[i * tails.len() + r] == seq![heads[i]] + tails[r],
    decreases heads.len(),
{
    lemma_prepend_each_len(heads, tails);
    lemma_prepend_each_len(heads.drop_first(), tails);
    let n = tails.len() as int;
    assert(0 <= i * n) by (nonlinear_arith)
        requires
            0 <= i,
            0 <= n,
    ;
    assert((i + 1) * n <= heads.len() * n) by (nonlinear_arith)
        requires
            i + 1 <= heads.len(),
            0 <= n,
    ;
    assert((i + 1) * n == i * n + n) by (nonlinear_arith);
    let front = tails.map_values(|t: Seq<usize>| seq![heads[0]] + t);
    if i > 0 {
        lemma_prepend_each_index(heads.drop_first(), tails, i - 1, r);
        assert(i * n == n + (i - 1) * n) by (nonlinear_arith);
        assert(heads.drop_first()[i - 1] == heads[i]);
    } else {
        assert(front[r] == seq![heads[0]] + tails[r]);
    }
}

proof fn lemma_prepend_each_element(heads: Seq<usize>, tails: Seq<Seq<usize>>, k: int)
    requires
        0 <= k < prepend_each(heads, tails).len(),
    ensures
        exists|i: int, r: int|
            0 <= i < heads.len() && 0 <= r < tails.len() && k == i * tails.len() + r
                && prepend_each(heads, tails)[k] == seq![heads[i]] + tails[r],
{
    lemma_prepend_each_len(heads, tails);
    let n = tails.len() as int;
    assert(n > 0) by (nonlinear_arith)
        requires
            0 <= k < heads.len() * n,
            n >= 0,
    ;
    let i = k / n;
    let r = k % n;
    vstd::arithmetic::div_mod::lemma_fundamental_div_mod(k, n);
    assert(0 <= r < n);
    assert(0 <= i) by (nonlinear_arith)
        requires
            k >= 0,
            n > 0,
            i == k / n,
    ;
    assert(i < heads.len()) by (nonlinear_arith)
        requires
            k == n * i + r,
            0 <= r,
            k < heads.len() * n,
            n > 0,
    ;
    assert(k == i * n + r) by (nonlinear_arith)
        requires
            k == n * i + r,
    ;
    lemma_prepend_each_index(heads, tails, i, r);
}

/// The cartesian product has one tuple per combination of positions.
pub proof fn lemma_cartesian_len(lists: Seq<Seq<usize>>)
    ensures
        cartesian(lists).len() == lengths_product(lists),
    decreases lists.len(),
{
    if lists.len() > 0 {
        lemma_cartesian_len(lists.drop_first());
        lemma_prepend_each_len(lists[0], cartesian(lists.drop_first()));
    }
}

/// Each tuple of the cartesian product takes one element of each list.
pub proof fn lemma_cartesian_element(lists: Seq<Seq<usize>>, k: int)
    requires
        0 <= k < cartesian(lists).len(),
    ensures
        cartesian(lists)[k].len() == lists.len(),
        forall|j: int| 0 <= j < lists.len() ==> #[trigger] lists[j].contains(cartesian(lists)[k][j]),
    decreases lists.len(),
{
    if lists.len() > 0 {
        let rest = cartesian(lists.drop_first());
        lemma_prepend_each_element(lists[0], rest, k);
        let (i, r) = choose|i: int, r: int|
            0 <= i < lists[0].len() && 0 <= r < rest.len() && k == i * rest.len() + r
                && prepend_each(lists[0], rest)[k] == seq![lists[0][i]] + rest[r];
        lemma_cartesian_element(lists.drop_first(), r);
        let t = cartesian(lists)[k];
        assert forall|j: int| 0 <= j < lists.len() implies #[trigger] lists[j].contains(t[j]) by {
            if j == 0 {
                assert(t[0] == lists[0][i]);
            } else {
                assert(t[j] == rest[r][j - 1]);
                assert(lists.drop_first()[j - 1] == lists[j]);
            }
        }
    }
}

/// The tuple at position `cartesian_rank(lists, idx)` of the cartesian
/// product takes the element at position `idx[j]` of each list `j`.
pub proof fn lemma_cartesian_rank(lists: Seq<Seq<usize>>, idx: Seq<usize>)
    requires
        valid_choice(lists, idx),
    ensures
        0 <= cartesian_rank(lists, idx) < lengths_product(lists),
        cartesian(lists)[cartesian_rank(lists, idx)] == Seq::new(
            lists.len(),
            |j: int| lists[j][idx[j] as int],
        ),
    decreases lists.len(),
{
    if lists.len() > 0 {
        let rest_lists = lists.drop_first();
        let rest_idx = idx.drop_first();
        assert(valid_choice(rest_lists, rest_idx)) by {
            assert forall|j: int| 0 <= j < rest_idx.len() implies rest_idx[j]
                < rest_lists[j].len() by {
                assert(rest_idx[j] == idx[j + 1]);
                assert(rest_lists[j] == lists[j + 1]);
            }
        }
        lemma_cartesian_rank(rest_lists, rest_idx);
        lemma_cartesian_len(rest_lists);
        let rest = cartesian(rest_lists);
        let r = cartesian_rank(rest_lists, rest_idx);
        lemma_prepend_each_index(lists[0], rest, idx[0] as int, r);
        assert(cartesian(lists)[cartesian_rank(lists, idx)] =~= Seq::new(
            lists.len(),
            |j: int| lists[j][idx[j] as int],
        ));
    }
}


proof fn lemma_value_ranges_drop_first(params: Seq<ParameterModel>)
    requires
        params.len() > 0,
    ensures
        value_ranges(params).drop_first() == value_ranges(params.drop_first()),
{
    assert(value_ranges(params).drop_first() =~= value_ranges(params.drop_first()));
}

proof fn lemma_value_count_product(params: Seq<ParameterModel>)
    ensures
        lengths_product(value_ranges(params)) == value_count_product(params),
    decreases params.len(),
{
    if params.len() > 0 {
        lemma_value_ranges_drop_first(params);
        lemma_value_count_product(params.drop_first());
    }
}

/// A cartesian series has one run per combination of values: as many runs
/// as the product of the numbers of values of the parameters.
pub proof fn lemma_cartesian_run_count(params: Seq<ParameterModel>)
    ensures
        cartesian_series(params).len() == value_count_product(params),
{
    lemma_cartesian_len(value_ranges(params));
    lemma_value_count_product(params);
}

/// Every choice of one value per parameter is measured by a cartesian
/// series: the run at `run_position(params, idx)` gives each parameter
/// `j` its value at position `idx[j]`.
pub proof fn lemma_cartesian_run_covers(params: Seq<ParameterModel>, idx: Seq<usize>)
    requires
        idx.len() == params.len(),
        forall|j: int| 0 <= j < idx.len() ==> idx[j] < params[j].1.len(),
    ensures
        0 <= run_position(params, idx) < cartesian_series(params).len(),
        cartesian_series(params)[run_position(params, idx)] == combination(params, idx),
{
    let ranges = value_ranges(params);
    lemma_cartesian_len(ranges);
    lemma_cartesian_rank(ranges, idx);
    let picked = Seq::new(ranges.len(), |j: int| ranges[j][idx[j] as int]);
    assert(picked =~= idx);
}

/// A zipped series has as many runs as the shortest value list has values.
pub proof fn lemma_zip_run_count(params: Seq<ParameterModel>)
    requires
        params.len() > 0,
    ensures
        zip_series(params).len() == min_value_count(params),
        forall|j: int| 0 <= j < params.len() ==> min_value_count(params) <= params[j].1.len(),
        exists|j: int| 0 <= j < params.len() && min_value_count(params) == params[j].1.len(),
    decreases params.len(),
{
    if params.len() > 1 {
        let rest = params.drop_last();
        lemma_zip_run_count(rest);
        let j0 = choose|j: int| 0 <= j < rest.len() && min_value_count(rest) == rest[j].1.len();
        assert(params[j0] == rest[j0]);
        assert forall|j: int| 0 <= j < params.len() implies min_value_count(params)
            <= params[j].1.len() by {
            if j < rest.len() {
                assert(params[j] == rest[j]);
            }
        }
        if params.last().1.len() < min_value_count(rest) {
            assert(min_value_count(params) == params[params.len() - 1].1.len());
        }
    } else {
        assert(min_value_count(params) == params[0].1.len());
    }
}

proof fn lemma_product_positive(params: Seq<ParameterModel>)
    requires
        forall|j: int| 0 <= j < params.len() ==> #[trigger] params[j].1.len() >= 1,
    ensures
        value_count_product(params) >= 1,
    decreases params.len(),
{
    if params.len() > 0 {
        assert forall|j: int| 0 <= j < params.drop_first().len() implies #[trigger] params.drop_first()[j].1.len() >= 1 by {
            assert(params.drop_first()[j] == params[j + 1]);
        }
        lemma_product_positive(params.drop_first());
        let a = params[0].1.len();
        let b = value_count_product(params.drop_first());
        assert(a * b >= 1) by (nonlinear_arith)
            requires
                a >= 1,
                b >= 1,
        ;
    }
}

/// Zipped run `i` stands in the cartesian series at the position of the
/// choice that takes value `i` of every parameter.
pub open spec fn zip_run_in_cartesian_series(params: Seq<ParameterModel>, i: int) -> bool {
    let position = run_position(params, same_position(params.len(), i));
    &&& 0 <= position < cartesian_series(params).len()
    &&& cartesian_series(params)[position] == zip_series(params)[i]
}

proof fn lemma_zip_run_in_cartesian(params: Seq<ParameterModel>, i: int)
    requires
        params.len() > 0,
        0 <= i < zip_series(params).len(),
    ensures
        zip_run_in_cartesian_series(params, i),
{
    lemma_zip_run_count(params);
    let idx = same_position(params.len(), i);
    assert forall|j: int| 0 <= j < idx.len() implies idx[j] < params[j].1.len() by {
        assert(min_value_count(params) <= params[j].1.len());
    }
    lemma_cartesian_run_covers(params, idx);
}

/// Every run of a zipped series is also a run of the cartesian series of
/// the same parameters: zipped run `i` stands in the cartesian series at
/// the position of the choice that takes value `i` of every parameter, so
/// the zipped series has no more runs than the cartesian one.
pub proof fn lemma_zip_runs_are_cartesian_runs(params: Seq<ParameterModel>)
    requires
        params.len() > 0,
    ensures
        zip_series(params).len() <= cartesian_series(params).len(),
        forall|i: int|
            0 <= i < zip_series(params).len() ==> #[trigger] zip_run_in_cartesian_series(params, i),
        forall|i: int|
            0 <= i < zip_series(params).len() ==> cartesian_series(params).contains(
                #[trigger] zip_series(params)[i],
            ),
{
    lemma_zip_run_count(params);
    lemma_cartesian_run_count(params);
    let m = min_value_count(params);
    if m > 0 {
        assert forall|j: int| 0 <= j < params.drop_first().len() implies #[trigger] params.drop_first()[j].1.len() >= 1 by {
            assert(params.drop_first()[j] == params[j + 1]);
        }
        lemma_product_positive(params.drop_first());
        let a = params[0].1.len();
        let b = value_count_product(params.drop_first());
        assert(a * b >= a) by (nonlinear_arith)
            requires
                b >= 1,
        ;
    }
    assert forall|i: int| 0 <= i < zip_series(params).len() implies #[trigger] zip_run_in_cartesian_series(params, i) by {
        lemma_zip_run_in_cartesian(params, i);
    }
    assert forall|i: int| 0 <= i < zip_series(params).len() implies cartesian_series(
        params,
    ).contains(#[trigger] zip_series(params)[i]) by {
        lemma_zip_run_in_cartesian(params, i);
    }
}

/// Every run of a series assigns each parameter once, in the order of the
/// parameters, a value from that parameter's list.
pub proof fn lemma_runs_assign_every_parameter(
    operation: Operation,
    params: Seq<ParameterModel>,
    k: int,
)
    requires
        0 <= k < measurement_series(operation, params).len(),
    ensures
        measurement_series(operation, params)[k].len() == params.len(),
        forall|j: int|
            0 <= j < params.len() ==> {
                let choice = #[trigger] measurement_series(operation, params)[k][j];
                &&& choice.0 == params[j].0
                &&& choice.1 < params[j].1.len()
                &&& choice.2 == params[j].1[choice.1 as int]
            },
{
    match operation {
        Operation::Zip => {
            if params.len() > 0 {
                lemma_zip_run_count(params);
            }
        },
        Operation::Cartesian => {
            let ranges = value_ranges(params);
            lemma_cartesian_element(ranges, k);
            let idx = cartesian(ranges)[k];
            assert forall|j: int| 0 <= j < params.len() implies idx[j] < params[j].1.len() by {
                assert(ranges[j].contains(idx[j]));
            }
        },
    }
}

// ---------------------------------------------------------------------
// What a series holds, stated run by run.
// ---------------------------------------------------------------------

/// `idx` chooses one value position for each parameter.
pub open spec fn is_value_choice(params: Seq<ParameterModel>, idx: Seq<usize>) -> bool {
    &&& idx.len() == params.len()
    &&& forall|j: int| 0 <= j < idx.len() ==> idx[j] < params[j].1.len()
}

/// The run `run` gives each parameter `j` of `params` its value at
/// position `idx[j]`: the parameter's name, the position and the value.
pub open spec fn run_picks(run: Seq<ChoiceModel>, params: Seq<ParameterModel>, idx: Seq<usize>) -> bool {
    &&& run.len() == params.len()
    &&& idx.len() == params.len()
    &&& forall|j: int|
        0 <= j < params.len() ==> #[trigger] run[j] == (params[j].0, idx[j], params[j].1[idx[j] as int])
}

/// The value positions of the run `a` come before those of the run `b` in
/// lexicographic order: at the first parameter where they differ, `a`
/// takes the earlier value.
pub open spec fn positions_precede(a: Seq<ChoiceModel>, b: Seq<ChoiceModel>) -> bool {
    exists|j: int|
        0 <= j < a.len() && j < b.len() && #[trigger] a[j].1 < b[j].1 && forall|l: int|
            0 <= l < j ==> #[trigger] a[l].1 == b[l].1
}

/// The tuple `a` comes before the tuple `b` in lexicographic order.
pub open spec fn tuple_precedes(a: Seq<usize>, b: Seq<usize>) -> bool {
    exists|j: int|
        0 <= j < a.len() && j < b.len() && #[trigger] a[j] < b[j] && forall|l: int|
            0 <= l < j ==> #[trigger] a[l] == b[l]
}

/// Each list holds its elements in strictly increasing order.
pub open spec fn lists_increasing(lists: Seq<Seq<usize>>) -> bool {
    forall|j: int, p: int, q: int|
        0 <= j < lists.len() && 0 <= p < q < lists[j].len() ==> #[trigger] lists[j][p]
            < #[trigger] lists[j][q]
}

proof fn lemma_cartesian_increasing(lists: Seq<Seq<usize>>, k1: int, k2: int)
    requires
        lists_increasing(lists),
        0 <= k1 < k2 < cartesian(lists).len(),
    ensures
        tuple_precedes(cartesian(lists)[k1], cartesian(lists)[k2]),
    decreases lists.len(),
{
    if lists.len() > 0 {
        let rest_lists = lists.drop_first();
        let rest = cartesian(rest_lists);
        let heads = lists[0];
        lemma_prepend_each_element(heads, rest, k1);
        lemma_prepend_each_element(heads, rest, k2);
        let (i1, r1) = choose|i: int, r: int|
            0 <= i < heads.len() && 0 <= r < rest.len() && k1 == i * rest.len() + r
                && prepend_each(heads, rest)[k1] == seq![heads[i]] + rest[r];
        let (i2, r2) = choose|i: int, r: int|
            0 <= i < heads.len() && 0 <= r < rest.len() && k2 == i * rest.len() + r
                && prepend_each(heads, rest)[k2] == seq![heads[i]] + rest[r];
        let t = rest.len() as int;
        assert(i1 <= i2) by (nonlinear_arith)
            requires
                k1 < k2,
                k1 == i1 * t + r1,
                k2 == i2 * t + r2,
                0 <= r1 < t,
                0 <= r2 < t,
        ;
        let a = cartesian(lists)[k1];
        let b = cartesian(lists)[k2];
        if i1 < i2 {
            assert(lists[0][i1] < lists[0][i2]);
            assert(a[0] == heads[i1] && b[0] == heads[i2]);
            assert(tuple_precedes(a, b));
        } else {
            assert(r1 < r2);
            assert forall|j: int, p: int, q: int|
                0 <= j < rest_lists.len() && 0 <= p < q < rest_lists[j].len() implies #[trigger] rest_lists[j][p]
                < #[trigger] rest_lists[j][q] by {
                assert(rest_lists[j] == lists[j + 1]);
            }
            lemma_cartesian_increasing(rest_lists, r1, r2);
            let j0 = choose|j: int|
                0 <= j < rest[r1].len() && j < rest[r2].len() && #[trigger] rest[r1][j] < rest[r2][j]
                    && forall|l: int| 0 <= l < j ==> #[trigger] rest[r1][l] == rest[r2][l];
            assert(a[j0 + 1] == rest[r1][j0]);
            assert(b[j0 + 1] == rest[r2][j0]);
            assert forall|l: int| 0 <= l < j0 + 1 implies #[trigger] a[l] == b[l] by {
                if l > 0 {
                    assert(a[l] == rest[r1][l - 1]);
                    assert(b[l] == rest[r2][l - 1]);
                }
            }
            assert(tuple_precedes(a, b));
        }
    }
}

/// A cartesian series measures every choice of one value per parameter.
pub proof fn lemma_cartesian_series_measures_every_choice(
    params: Seq<ParameterModel>,
    idx: Seq<usize>,
)
    requires
        is_value_choice(params, idx),
    ensures
        exists|k: int|
            #![trigger measurement_series(Operation::Cartesian, params)[k]]
            0 <= k < measurement_series(Operation::Cartesian, params).len() && run_picks(
                measurement_series(Operation::Cartesian, params)[k],
                params,
                idx,
            ),
{
    lemma_cartesian_run_covers(params, idx);
    let k = run_position(params, idx);
    let run = measurement_series(Operation::Cartesian, params)[k];
    assert(run == combination(params, idx));
    assert(run_picks(run, params, idx));
}

/// A cartesian series has as many runs as the product of the numbers of
/// values of the parameters.
pub proof fn lemma_cartesian_series_count(params: Seq<ParameterModel>)
    ensures
        measurement_series(Operation::Cartesian, params).len() == value_count_product(params),
{
    lemma_cartesian_run_count(params);
}

/// Each run of a cartesian series takes one value of every parameter, and
/// the runs come in strictly increasing lexicographic order of their value
/// positions, the first parameter deciding first; so no run is repeated.
pub proof fn lemma_cartesian_series_order(params: Seq<ParameterModel>, k1: int, k2: int)
    requires
        forall|j: int| 0 <= j < params.len() ==> #[trigger] params[j].1.len() <= usize::MAX,
        0 <= k1 < k2 < measurement_series(Operation::Cartesian, params).len(),
    ensures
        positions_precede(
            measurement_series(Operation::Cartesian, params)[k1],
            measurement_series(Operation::Cartesian, params)[k2],
        ),
        measurement_series(Operation::Cartesian, params)[k1] != measurement_series(
            Operation::Cartesian,
            params,
        )[k2],
{
    let ranges = value_ranges(params);
    assert forall|j: int, p: int, q: int|
        0 <= j < ranges.len() && 0 <= p < q < ranges[j].len() implies #[trigger] ranges[j][p]
        < #[trigger] ranges[j][q] by {
        assert(ranges[j] == index_range(params[j].1.len()));
        assert(ranges[j][p] == p as usize && ranges[j][q] == q as usize);
    }
    lemma_cartesian_increasing(ranges, k1, k2);
    lemma_cartesian_element(ranges, k1);
    lemma_cartesian_element(ranges, k2);
    let t1 = cartesian(ranges)[k1];
    let t2 = cartesian(ranges)[k2];
    let a = measurement_series(Operation::Cartesian, params)[k1];
    let b = measurement_series(Operation::Cartesian, params)[k2];
    assert(a == combination(params, t1));
    assert(b == combination(params, t2));
    let j0 = choose|j: int|
        0 <= j < t1.len() && j < t2.len() && #[trigger] t1[j] < t2[j] && forall|l: int|
            0 <= l < j ==> #[trigger] t1[l] == t2[l];
    assert(a[j0].1 == t1[j0] && b[j0].1 == t2[j0]);
    assert forall|l: int| 0 <= l < j0 implies #[trigger] a[l].1 == b[l].1 by {
        assert(a[l].1 == t1[l] && b[l].1 == t2[l]);
    }
    assert(positions_precede(a, b));
    assert(a[j0] != b[j0]);
}

/// A zipped series stops with the shortest value list, and its run `i`
/// gives every parameter its value at position `i`.
pub proof fn lemma_zip_series_law(params: Seq<ParameterModel>)
    requires
        params.len() > 0,
    ensures
        forall|j: int|
            0 <= j < params.len() ==> measurement_series(Operation::Zip, params).len()
                <= #[trigger] params[j].1.len(),
        exists|j: int|
            0 <= j < params.len() && measurement_series(Operation::Zip, params).len()
                == #[trigger] params[j].1.len(),
        forall|i: int|
            0 <= i < measurement_series(Operation::Zip, params).len() ==> run_picks(
                #[trigger] measurement_series(Operation::Zip, params)[i],
                params,
                same_position(params.len(), i),
            ),
{
    lemma_zip_run_count(params);
    assert forall|i: int|
        0 <= i < measurement_series(Operation::Zip, params).len() implies run_picks(
        #[trigger] measurement_series(Operation::Zip, params)[i],
        params,
        same_position(params.len(), i),
    ) by {
        let run = measurement_series(Operation::Zip, params)[i];
        assert(run == combination(params, same_position(params.len(), i)));
    }
}

/// Calls `Itertools::multi_cartesian_product` on the index lists and
/// collects every tuple it yields.  The contract claims what the crate's
/// source shows: the tuples of the n-ary cartesian product, the last list
/// varying fastest, one empty tuple for no lists, and none when a list is
/// empty.
#[verifier::external_body]
fn multi_cartesian_product_of(lists: Vec<Vec<usize>>) -> (res: Vec<Vec<usize>>)
    requires
        lengths_product(lists.deep_view()) <= usize::MAX,
    ensures
        res.deep_view() == cartesian(lists.deep_view()),
{
    lists.into_iter().multi_cartesian_product().collect()
}


proof fn lemma_deep_view_push<T: DeepView>(before: Seq<T>, after: Seq<T>, x: T)
    requires
        after == before.push(x),
    ensures
        Seq::new(after.len(), |i: int| after[i].deep_view()) == Seq::new(
            before.len(),
            |i: int| before[i].deep_view(),
        ).push(x.deep_view()),
{
    assert(Seq::new(after.len(), |i: int| after[i].deep_view()) =~= Seq::new(
        before.len(),
        |i: int| before[i].deep_view(),
    ).push(x.deep_view()));
}

proof fn lemma_take_push<A>(s: Seq<A>, j: int)
    requires
        0 <= j < s.len(),
    ensures
        s.take(j + 1) == s.take(j).push(s[j]),
{
    assert(s.take(j + 1) =~= s.take(j).push(s[j]));
}

/// The run that gives parameter `j` the value at position `idx[j]`.
fn choice_row(params: &Vec<Parameter>, idx: &Vec<usize>) -> (res: Vec<ParameterChoice>)
    requires
        idx.len() == params.len(),
        forall|j: int| 0 <= j < idx.len() ==> idx[j] < params[j].values.len(),
    ensures
        res.deep_view() == combination(params.deep_view(), idx@),
{
    let ghost pv = params.deep_view();
    let mut row: Vec<ParameterChoice> = Vec::new();
    for j in 0..params.len()
        invariant
            pv == params.deep_view(),
            idx.len() == params.len(),
            forall|j: int| 0 <= j < idx.len() ==> idx[j] < params[j].values.len(),
            row.deep_view() == combination(pv, idx@).take(j as int),
    {
        let p = &params[j];
        let i = idx[j];
        let choice = ParameterChoice { name: p.name.clone(), index: i, value: p.values[i].clone() };
        let ghost pushed = choice;
        assert(pv[j as int].1[i as int] == p.values@[i as int]@);
        let ghost before = row@;
        row.push(choice);
        proof {
            lemma_deep_view_push(before, row@, pushed);
            lemma_take_push(combination(pv, idx@), j as int);
        }
    }
    assert(combination(pv, idx@).take(params.len() as int) =~= combination(pv, idx@));
    row
}

/// The run that gives every parameter its value at position `i`.
fn zip_row(params: &Vec<Parameter>, i: usize) -> (res: Vec<ParameterChoice>)
    requires
        forall|j: int| 0 <= j < params.len() ==> i < params[j].values.len(),
    ensures
        res.deep_view() == combination(
            params.deep_view(),
            same_position(params.len() as nat, i as int),
        ),
{
    let ghost pv = params.deep_view();
    let ghost idx = same_position(params.len() as nat, i as int);
    let mut row: Vec<ParameterChoice> = Vec::new();
    for j in 0..params.len()
        invariant
            pv == params.deep_view(),
            idx == same_position(params.len() as nat, i as int),
            forall|j: int| 0 <= j < params.len() ==> i < params[j].values.len(),
            row.deep_view() == combination(pv, idx).take(j as int),
    {
        let p = &params[j];
        let choice = ParameterChoice { name: p.name.clone(), index: i, value: p.values[i].clone() };
        let ghost pushed = choice;
        assert(pv[j as int].1[i as int] == p.values@[i as int]@);
        let ghost before = row@;
        row.push(choice);
        proof {
            lemma_deep_view_push(before, row@, pushed);
            lemma_take_push(combination(pv, idx), j as int);
        }
    }
    assert(combination(pv, idx).take(params.len() as int) =~= combination(pv, idx));
    row
}

/// The number of values of the shortest parameter list.
fn shortest_value_count(params: &Vec<Parameter>) -> (res: usize)
    requires
        params.len() > 0,
    ensures
        res == min_value_count(params.deep_view()),
        forall|j: int| 0 <= j < params.len() ==> res <= params[j].values.len(),
{
    let ghost pv = params.deep_view();
    let mut m = params[0].values.len();
    assert(pv.take(1).len() == 1);
    for j in 1..params.len()
        invariant
            pv == params.deep_view(),
            1 <= j <= params.len(),
            m == min_value_count(pv.take(j as int)),
            forall|k: int| 0 <= k < j ==> m <= params[k].values.len(),
    {
        let n = params[j].values.len();
        assert(pv.take(j + 1).drop_last() =~= pv.take(j as int));
        if n < m {
            m = n;
        }
    }
    assert(pv.take(params.len() as int) =~= pv);
    m
}

/// The runs of a zipped series.
fn zip_measurements(params: &Vec<Parameter>) -> (res: Vec<Vec<ParameterChoice>>)
    requires
        params.len() > 0,
    ensures
        res.deep_view() == zip_series(params.deep_view()),
{
    let ghost pv = params.deep_view();
    let count = shortest_value_count(params);
    let mut series: Vec<Vec<ParameterChoice>> = Vec::with_capacity(count);
    for i in 0..count
        invariant
            pv == params.deep_view(),
            count == min_value_count(pv),
            forall|j: int| 0 <= j < params.len() ==> count <= params[j].values.len(),
            series.deep_view() == zip_series(pv).take(i as int),
    {
        let row = zip_row(params, i);
        let ghost pushed = row;
        let ghost before = series@;
        series.push(row);
        proof {
            lemma_deep_view_push(before, series@, pushed);
            lemma_take_push(zip_series(pv), i as int);
        }
    }
    assert(zip_series(pv).take(count as int) =~= zip_series(pv));
    series
}

/// For each parameter, the list of the positions of its values.
fn value_position_lists(params: &Vec<Parameter>) -> (res: Vec<Vec<usize>>)
    ensures
        res.deep_view() == value_ranges(params.deep_view()),
{
    let ghost pv = params.deep_view();
    let mut lists: Vec<Vec<usize>> = Vec::new();
    for j in 0..params.len()
        invariant
            pv == params.deep_view(),
            lists.deep_view() == value_ranges(pv).take(j as int),
    {
        let n = params[j].values.len();
        let mut positions: Vec<usize> = Vec::new();
        for i in 0..n
            invariant
                positions.deep_view() == index_range(n as nat).take(i as int),
        {
            let ghost before = positions@;
            positions.push(i);
            proof {
                lemma_deep_view_push(before, positions@, i);
                lemma_take_push(index_range(n as nat), i as int);
            }
        }
        assert(positions.deep_view() =~= index_range(n as nat));
        let ghost pushed = positions;
        let ghost before = lists@;
        lists.push(positions);
        proof {
            lemma_deep_view_push(before, lists@, pushed);
            lemma_take_push(value_ranges(pv), j as int);
        }
    }
    assert(value_ranges(pv).take(params.len() as int) =~= value_ranges(pv));
    lists
}

/// The runs of a cartesian series.
fn cartesian_measurements(params: &Vec<Parameter>) -> (res: Vec<Vec<ParameterChoice>>)
    requires
        value_count_product(params.deep_view()) <= usize::MAX,
    ensures
        res.deep_view() == cartesian_series(params.deep_view()),
{
    let ghost pv = params.deep_view();
    let ghost ranges = value_ranges(pv);
    let lists = value_position_lists(params);
    proof {
        lemma_value_count_product(pv);
    }
    let tuples = multi_cartesian_product_of(lists);
    let mut series: Vec<Vec<ParameterChoice>> = Vec::new();
    for k in 0..tuples.len()
        invariant
            pv == params.deep_view(),
            ranges == value_ranges(pv),
            tuples.deep_view() == cartesian(ranges),
            series.deep_view() == cartesian_series(pv).take(k as int),
    {
        proof {
            lemma_cartesian_element(ranges, k as int);
            assert forall|j: int| 0 <= j < tuples[k as int].len() implies tuples[k as int][j]
                < params[j].values.len() by {
                assert(tuples.deep_view()[k as int] == tuples[k as int]@);
                assert(ranges[j].contains(cartesian(ranges)[k as int][j]));
            }
        }
        let row = choice_row(params, &tuples[k]);
        assert(tuples[k as int]@ =~= tuples.deep_view()[k as int]);
        assert(cartesian_series(pv)[k as int] == combination(pv, cartesian(ranges)[k as int]));
        let ghost pushed = row;
        let ghost before = series@;
        series.push(row);
        proof {
            lemma_deep_view_push(before, series@, pushed);
            lemma_take_push(cartesian_series(pv), k as int);
        }
    }
    assert(cartesian_series(pv).take(tuples.len() as int) =~= cartesian_series(pv));
    series
}

impl MeasurementConfig {
    /// All runs of the series: one list of parameter choices per run.
    pub fn get_measurement_series(&self) -> (res: Vec<Vec<ParameterChoice>>)
        requires
            self.operation == Operation::Zip ==> self.parameters.len() > 0,
            self.operation == Operation::Cartesian ==> value_count_product(
                self.parameters.deep_view(),
            ) <= usize::MAX,
        ensures
            res.deep_view() == measurement_series(self.operation, self.parameters.deep_view()),
            // zipped: one run per value of the shortest list, run `i` taking the `i`-th values
            self.operation == Operation::Zip ==> {
                &&& forall|j: int|
                    0 <= j < self.parameters.len() ==> res.len()
                        <= #[trigger] self.parameters[j].values.len()
                &&& exists|j: int|
                    0 <= j < self.parameters.len() && res.len()
                        == #[trigger] self.parameters[j].values.len()
                &&& forall|i: int|
                    0 <= i < res.len() ==> run_picks(
                        #[trigger] res.deep_view()[i],
                        self.parameters.deep_view(),
                        same_position(self.parameters.len() as nat, i),
                    )
            },
            // cartesian: every choice of values is measured, in lexicographic order of
            // the value positions, once each
            self.operation == Operation::Cartesian ==> {
                &&& res.len() == value_count_product(self.parameters.deep_view())
                &&& forall|idx: Seq<usize>|
                    #[trigger] is_value_choice(self.parameters.deep_view(), idx) ==> exists|k: int|
                        0 <= k < res.len() && run_picks(
                            #[trigger] res.deep_view()[k],
                            self.parameters.deep_view(),
                            idx,
                        )
                &&& forall|k1: int, k2: int|
                    0 <= k1 < k2 < res.len() ==> positions_precede(
                        #[trigger] res.deep_view()[k1],
                        #[trigger] res.deep_view()[k2],
                    )
            },
    {
        let ghost pv = self.parameters.deep_view();
        match self.operation {
            Operation::Zip => {
                let res = zip_measurements(&self.parameters);
                proof {
                    lemma_zip_series_law(pv);
                    assert forall|j: int| 0 <= j < self.parameters.len() implies res.len()
                        <= #[trigger] self.parameters[j].values.len() by {
                        assert(pv[j].1.len() == self.parameters[j].values.len());
                    }
                    let j0 = choose|j: int| 0 <= j < pv.len() && res.deep_view().len() == #[trigger] pv[j].1.len();
                    assert(pv[j0].1.len() == self.parameters[j0].values.len());
                }
                res
            },
            Operation::Cartesian => {
                let res = cartesian_measurements(&self.parameters);
                proof {
                    lemma_cartesian_series_count(pv);
                    assert forall|idx: Seq<usize>| #[trigger] is_value_choice(pv, idx) implies exists|k: int|
                        0 <= k < res.len() && run_picks(#[trigger] res.deep_view()[k], pv, idx) by {
                        lemma_cartesian_series_measures_every_choice(pv, idx);
                    }
                    assert forall|k1: int, k2: int| 0 <= k1 < k2 < res.len() implies positions_precede(
                        #[trigger] res.deep_view()[k1],
                        #[trigger] res.deep_view()[k2],
                    ) by {
                        assert forall|j: int| 0 <= j < pv.len() implies #[trigger] pv[j].1.len() <= usize::MAX by {
                            assert(pv[j].1.len() == self.parameters[j].values.len());
                        }
                        lemma_cartesian_series_order(pv, k1, k2);
                    }
                }
                res
            },
        }
    }
}

} // verus!
