//! The input matrix, and its expansion into every combination of one value
//! per variable.

use crate::assoc::{lemma_put, names, names_distinct, put, put_all, put_row};
use crate::product::{
    cartesian_product, choice_at, lemma_choice_at_position_of, lemma_choice_at_valid,
    lemma_position_of_choice_at, lemma_product_len_positive, lemma_product_len_zero,
    position_of, product_len, select, valid_choice,
};
use itertools::Itertools;
use vstd::prelude::*;
use vstd::std_specs::cmp::PartialEqSpecImpl;

verus! {

/// One assignment: a variable's name and the value it takes.
#[derive(Clone, Debug)]
pub struct EnvVar {
    pub name: String,
    pub value: String,
}

impl View for EnvVar {
    type V = (Seq<char>, Seq<char>);

    open spec fn view(&self) -> (Seq<char>, Seq<char>) {
        (self.name@, self.value@)
    }
}

impl DeepView for EnvVar {
    type V = (Seq<char>, Seq<char>);

    open spec fn deep_view(&self) -> (Seq<char>, Seq<char>) {
        self@
    }
}

impl PartialEq for EnvVar {
    fn eq(&self, other: &Self) -> (equal: bool) {
        self.name == other.name && self.value == other.value
    }
}

impl Eq for EnvVar {}

impl PartialEqSpecImpl for EnvVar {
    open spec fn obeys_eq_spec() -> bool {
        true
    }

    open spec fn eq_spec(&self, other: &Self) -> bool {
        self@ == other@
    }
}

/// A mapping from variable names to the values that each may take. The rows
/// keep the order in which their names were first inserted, and that order
/// decides the order of the combinations.
#[derive(Debug)]
pub struct InputMatrix {
    rows: Vec<(String, Vec<String>)>,
}

impl View for InputMatrix {
    type V = Seq<(Seq<char>, Seq<Seq<char>>)>;

    closed spec fn view(&self) -> Seq<(Seq<char>, Seq<Seq<char>>)> {
        self.rows.deep_view()
    }
}

/// The axes of a matrix: for each row, its values each paired with the row's
/// name.
pub open spec fn axes_of(matrix: Seq<(Seq<char>, Seq<Seq<char>>)>) -> Seq<
    Seq<(Seq<char>, Seq<char>)>,
> {
    Seq::new(
        matrix.len(),
        |i: int| Seq::new(matrix[i].1.len(), |j: int| (matrix[i].0, matrix[i].1[j])),
    )
}

/// The combinations of a matrix: the cartesian product of its axes, the last
/// row's values varying fastest.
pub open spec fn combinations_of(matrix: Seq<(Seq<char>, Seq<Seq<char>>)>) -> Seq<
    Seq<(Seq<char>, Seq<char>)>,
> {
    cartesian_product(axes_of(matrix))
}

/// The number of combinations of a matrix: the product of the lengths of its
/// rows' value lists.
pub open spec fn count_of(matrix: Seq<(Seq<char>, Seq<Seq<char>>)>) -> nat {
    product_len(axes_of(matrix))
}

impl InputMatrix {
    #[verifier::type_invariant]
    spec fn names_are_distinct(&self) -> bool {
        names_distinct(self@)
    }

    /// The matrix without any variable.
    pub fn new() -> (matrix: InputMatrix)
        ensures
            matrix@ == Seq::<(Seq<char>, Seq<Seq<char>>)>::empty(),
    {
        let matrix = InputMatrix { rows: Vec::new() };
        assert(matrix@ =~= Seq::empty());
        matrix
    }

    /// Gives `name` the candidate values `values`. A variable that the matrix
    /// holds already keeps its place and loses its former values; a new one
    /// goes behind the others.
    pub fn insert(&mut self, name: String, values: Vec<String>)
        ensures
            final(self)@ == put(old(self)@, name@, values.deep_view()),
            names_distinct(final(self)@),
    {
        proof {
            use_type_invariant(&*self);
            lemma_put(self@, name@, values.deep_view());
        }
        let mut rows: Vec<(String, Vec<String>)> = Vec::new();
        core::mem::swap(&mut rows, &mut self.rows);
        assert(self@ =~= Seq::empty());
        put_row(&mut rows, name, values);
        self.rows = rows;
    }

    /// The matrix that holds the given rows, inserted one after another: of
    /// two rows with one name the later one's values stand, at the earlier
    /// one's place.
    pub fn from_rows(rows: Vec<(String, Vec<String>)>) -> (matrix: InputMatrix)
        ensures
            matrix@ == put_all(rows.deep_view()),
            names_distinct(matrix@),
    {
        let ghost all = rows.deep_view();
        let ghost given = rows@;
        let mut matrix = InputMatrix::new();
        for row in it: rows.into_iter()
            invariant
                it.seq() == given,
                all == Seq::new(given.len(), |i: int| given[i].deep_view()),
                matrix@ == put_all(all.take(it.index() as int)),
                names_distinct(matrix@),
        {
            proof {
                let upto = all.take(it.index() + 1);
                assert(upto.drop_last() =~= all.take(it.index() as int));
                assert(upto.last() == row.deep_view());
            }
            let (name, values) = row;
            matrix.insert(name, values);
        }
        assert(all.take(given.len() as int) =~= all);
        matrix
    }

    /// The rows of the matrix, in their order.
    pub fn rows(&self) -> (rows: &Vec<(String, Vec<String>)>)
        ensures
            rows.deep_view() == self@,
            names_distinct(self@),
    {
        proof {
            use_type_invariant(self);
        }
        &self.rows
    }

    /// The number of combinations of the matrix, or `None` where that number
    /// is beyond `usize`.
    pub fn combination_count(&self) -> (count: Option<usize>)
        ensures
            count == if count_of(self@) <= usize::MAX {
                Some(count_of(self@) as usize)
            } else {
                None::<usize>
            },
    {
        let ghost axes = axes_of(self@);
        let n = self.rows.len();
        let mut i: usize = 0;
        while i < n
            invariant
                i <= n,
                n == self.rows.len(),
                axes == axes_of(self@),
                forall|j: int| 0 <= j < i ==> (#[trigger] axes[j]).len() > 0,
            decreases n - i,
        {
            if self.rows[i].1.len() == 0 {
                proof {
                    lemma_product_len_zero(axes, i as int);
                }
                return Some(0);
            }
            i += 1;
        }
        let mut count: usize = 1;
        let mut k: usize = n;
        assert(axes.skip(n as int) =~= Seq::empty());
        while k > 0
            invariant
                k <= n,
                n == self.rows.len(),
                axes == axes_of(self@),
                forall|j: int| 0 <= j < n ==> (#[trigger] axes[j]).len() > 0,
                count == product_len(axes.skip(k as int)),
            decreases k,
        {
            k -= 1;
            let len = self.rows[k].1.len();
            proof {
                assert(axes.skip(k as int).drop_first() =~= axes.skip(k + 1));
                assert(axes.skip(k as int)[0] == axes[k as int]);
                assert(axes[k as int].len() == len);
                lemma_product_len_skip(axes, k as int);
            }
            match len.checked_mul(count) {
                Some(next) => {
                    count = next;
                },
                None => {
                    return None;
                },
            }
        }
        assert(axes.skip(0) =~= axes);
        Some(count)
    }
}

/// Without an empty axis, leaving out leading axes does not make the product
/// longer.
proof fn lemma_product_len_skip<T>(axes: Seq<Seq<T>>, k: int)
    requires
        0 <= k <= axes.len(),
        forall|j: int| 0 <= j < axes.len() ==> (#[trigger] axes[j]).len() > 0,
    ensures
        product_len(axes.skip(k)) <= product_len(axes),
    decreases k,
{
    if k == 0 {
        assert(axes.skip(0) =~= axes);
    } else {
        let tail = axes.drop_first();
        assert forall|j: int| 0 <= j < tail.len() implies (#[trigger] tail[j]).len() > 0 by {
            assert(tail[j] == axes[j + 1]);
        }
        lemma_product_len_skip(tail, k - 1);
        assert(tail.skip(k - 1) =~= axes.skip(k));
        assert(product_len(tail) <= axes[0].len() * product_len(tail)) by (nonlinear_arith)
            requires
                axes[0].len() > 0,
        ;
    }
}

/// The cartesian product of the axes, as `multi_cartesian_product` of the
/// crate itertools collects it: each item of the result takes one clone from
/// every axis, and the items come in lexicographic order of the positions
/// taken, the last axis moving first; no axis at all gives the one empty
/// item. The clones are those of `EnvVar`'s derived `Clone`, which copies
/// both strings. The call is left out where the number of items is beyond
/// `usize`, which no `Vec` can hold.
#[verifier::external_body]
fn multi_cartesian_product(axes: Vec<Vec<EnvVar>>) -> (combinations: Vec<Vec<EnvVar>>)
    requires
        product_len(axes.deep_view()) <= usize::MAX,
    ensures
        combinations.deep_view() == cartesian_product(axes.deep_view()),
{
    axes.into_iter().multi_cartesian_product().collect()
}

/// Every combination of one value per variable of the matrix, each as the
/// assignments of its variables in the matrix's order. The combinations come
/// in lexicographic order of the values' positions, the last variable's
/// values varying fastest.
pub fn get_combinations(input_matrix: InputMatrix) -> (combinations: Vec<Vec<EnvVar>>)
    requires
        count_of(input_matrix@) <= usize::MAX,
    ensures
        combinations.deep_view() == combinations_of(input_matrix@),
        combinations.len() == count_of(input_matrix@),
        forall|k: int|
            0 <= k < combinations.len() ==> {
                &&& names(#[trigger] combinations[k].deep_view()) == names(input_matrix@)
                &&& names_distinct(combinations[k].deep_view())
            },
{
    let rows = input_matrix.rows();
    let ghost axes = axes_of(input_matrix@);
    let mut matrix: Vec<Vec<EnvVar>> = Vec::new();
    for i in 0..rows.len()
        invariant
            rows.deep_view() == input_matrix@,
            axes == axes_of(input_matrix@),
            matrix.len() == i,
            forall|r: int| 0 <= r < i ==> (#[trigger] matrix[r]).deep_view() == axes[r],
    {
        let key = &rows[i].0;
        let values = &rows[i].1;
        let mut env_vars: Vec<EnvVar> = Vec::new();
        for j in 0..values.len()
            invariant
                rows.deep_view() == input_matrix@,
                axes == axes_of(input_matrix@),
                i < rows.len(),
                key == rows[i as int].0,
                values == rows[i as int].1,
                env_vars.len() == j,
                forall|c: int| 0 <= c < j ==> (#[trigger] env_vars[c])@ == axes[i as int][c],
        {
            env_vars.push(EnvVar { name: key.clone(), value: values[j].clone() });
        }
        assert(env_vars.deep_view() =~= axes[i as int]);
        matrix.push(env_vars);
    }
    assert(matrix.deep_view() =~= axes);
    let combinations = multi_cartesian_product(matrix);
    assert(combinations.deep_view().len() == combinations.len());
    assert forall|k: int| 0 <= k < combinations.len() implies {
        &&& names(#[trigger] combinations[k].deep_view()) == names(input_matrix@)
        &&& names_distinct(combinations[k].deep_view())
    } by {
        assert(combinations[k].deep_view() == combinations.deep_view()[k]);
        lemma_names_of_combination(input_matrix@, k);
    }
    combinations
}

/// The matrix has as many combinations as the product of the lengths of its
/// value lists, and every combination has one entry per variable: at each
/// place the name of the variable at that place, with one of its values.
pub proof fn lemma_one_entry_per_variable(matrix: Seq<(Seq<char>, Seq<Seq<char>>)>, k: int)
    requires
        0 <= k < combinations_of(matrix).len(),
    ensures
        combinations_of(matrix).len() == count_of(matrix),
        combinations_of(matrix)[k].len() == matrix.len(),
        forall|i: int|
            0 <= i < matrix.len() ==> {
                &&& (#[trigger] combinations_of(matrix)[k][i]).0 == matrix[i].0
                &&& matrix[i].1.contains(combinations_of(matrix)[k][i].1)
            },
{
    let axes = axes_of(matrix);
    lemma_choice_at_valid(axes, k);
    let choice = choice_at(axes, k);
    assert forall|i: int| 0 <= i < matrix.len() implies {
        &&& (#[trigger] combinations_of(matrix)[k][i]).0 == matrix[i].0
        &&& matrix[i].1.contains(combinations_of(matrix)[k][i].1)
    } by {
        assert(0 <= choice[i] < axes[i].len());
        assert(combinations_of(matrix)[k][i] == axes[i][choice[i]]);
        assert(matrix[i].1[choice[i]] == combinations_of(matrix)[k][i].1);
    }
}

/// The names of every combination are the names of the matrix, in the same
/// order: none is missing and none is added. Where no two variables of the
/// matrix share a name, no two entries of a combination do.
pub proof fn lemma_names_of_combination(matrix: Seq<(Seq<char>, Seq<Seq<char>>)>, k: int)
    requires
        0 <= k < combinations_of(matrix).len(),
    ensures
        names(combinations_of(matrix)[k]) == names(matrix),
        names(combinations_of(matrix)[k]).to_set() == names(matrix).to_set(),
        names_distinct(matrix) ==> names_distinct(combinations_of(matrix)[k]),
{
    lemma_one_entry_per_variable(matrix, k);
    let combination = combinations_of(matrix)[k];
    assert(names(combination) =~= names(matrix));
    if names_distinct(matrix) {
        assert forall|i: int, j: int| 0 <= i < j < combination.len() implies combination[i].0
            != combination[j].0 by {
            assert(combination[i].0 == matrix[i].0);
            assert(combination[j].0 == matrix[j].0);
        }
    }
}

/// A variable without any value leaves no combination.
pub proof fn lemma_empty_value_list(matrix: Seq<(Seq<char>, Seq<Seq<char>>)>, i: int)
    requires
        0 <= i < matrix.len(),
        matrix[i].1.len() == 0,
    ensures
        count_of(matrix) == 0,
        combinations_of(matrix) == Seq::<Seq<(Seq<char>, Seq<char>)>>::empty(),
{
    lemma_product_len_zero(axes_of(matrix), i);
    assert(combinations_of(matrix) =~= Seq::empty());
}

/// A matrix without variables has exactly one combination, which has no
/// entry.
pub proof fn lemma_no_variables(matrix: Seq<(Seq<char>, Seq<Seq<char>>)>)
    requires
        matrix.len() == 0,
    ensures
        count_of(matrix) == 1,
        combinations_of(matrix) == seq![Seq::<(Seq<char>, Seq<char>)>::empty()],
{
    let combinations = combinations_of(matrix);
    assert(combinations.len() == 1);
    assert(combinations[0] =~= Seq::empty());
    assert(combinations =~= seq![Seq::<(Seq<char>, Seq<char>)>::empty()]);
}

/// Every selection of one value per variable stands among the combinations
/// exactly once: at the position that the chosen indices give, and at no
/// other.
pub proof fn lemma_every_selection_once(
    matrix: Seq<(Seq<char>, Seq<Seq<char>>)>,
    choice: Seq<int>,
)
    requires
        valid_choice(axes_of(matrix), choice),
    ensures
        0 <= position_of(axes_of(matrix), choice) < combinations_of(matrix).len(),
        combinations_of(matrix)[position_of(axes_of(matrix), choice)] == select(
            axes_of(matrix),
            choice,
        ),
        forall|k: int|
            0 <= k < combinations_of(matrix).len() && #[trigger] choice_at(axes_of(matrix), k)
                == choice ==> k == position_of(axes_of(matrix), choice),
{
    let axes = axes_of(matrix);
    lemma_choice_at_position_of(axes, choice);
    assert forall|k: int|
        0 <= k < combinations_of(matrix).len() && #[trigger] choice_at(axes, k)
            == choice implies k == position_of(axes, choice) by {
        lemma_position_of_choice_at(axes, k);
    }
}

/// Every combination is a selection of one value per variable: the one that
/// the indices standing at its position choose.
pub proof fn lemma_only_selections(matrix: Seq<(Seq<char>, Seq<Seq<char>>)>, k: int)
    requires
        0 <= k < combinations_of(matrix).len(),
    ensures
        valid_choice(axes_of(matrix), choice_at(axes_of(matrix), k)),
        combinations_of(matrix)[k] == select(axes_of(matrix), choice_at(axes_of(matrix), k)),
{
    lemma_choice_at_valid(axes_of(matrix), k);
}

/// The matrix has a combination exactly where every variable has a value.
pub proof fn lemma_count_positive(matrix: Seq<(Seq<char>, Seq<Seq<char>>)>)
    ensures
        count_of(matrix) > 0 <==> forall|i: int|
            0 <= i < matrix.len() ==> (#[trigger] matrix[i]).1.len() > 0,
{
    let axes = axes_of(matrix);
    if forall|i: int| 0 <= i < matrix.len() ==> (#[trigger] matrix[i]).1.len() > 0 {
        assert forall|i: int| 0 <= i < axes.len() implies (#[trigger] axes[i]).len() > 0 by {
            assert(matrix[i].1.len() > 0);
        }
        lemma_product_len_positive(axes);
    } else {
        let i = choose|i: int| 0 <= i < matrix.len() && !((#[trigger] matrix[i]).1.len() > 0);
        lemma_product_len_zero(axes, i);
    }
}

} // verus!
