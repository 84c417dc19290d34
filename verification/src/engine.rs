//! Planning the runs: one launch of the shell per combination, each with the
//! combination as its environment overlay.

use crate::assoc::{
    as_map, lemma_put_all, lemma_put_all_of_distinct, names_distinct, put_all, put_row,
};
use crate::matrix::{
    combinations_of, count_of, get_combinations, lemma_empty_value_list,
    lemma_names_of_combination, lemma_no_variables, EnvVar, InputMatrix,
};
use crate::parse::{json_object, parse_matrix, ParseError};
use vstd::prelude::*;

verus! {

/// One run of the command: the program to start, its arguments, and the
/// variables to lay over the inherited environment.
#[derive(Clone, Debug)]
pub struct ExecutionUnit {
    pub program: String,
    pub arguments: Vec<String>,
    pub environment: Vec<(String, String)>,
}

/// What an [`ExecutionUnit`] holds, as plain sequences.
pub struct Launch {
    pub program: Seq<char>,
    pub arguments: Seq<Seq<char>>,
    pub environment: Seq<(Seq<char>, Seq<char>)>,
}

impl DeepView for ExecutionUnit {
    type V = Launch;

    open spec fn deep_view(&self) -> Launch {
        Launch {
            program: self.program@,
            arguments: self.arguments.deep_view(),
            environment: self.environment.deep_view(),
        }
    }
}

/// Why no run was planned.
#[derive(Clone, Debug)]
pub enum PlanError {
    /// The matrix text could not be read.
    Parse(ParseError),
    /// The matrix has more combinations than a `usize` can count.
    TooManyCombinations,
}

/// The launch for one combination: `sh -c` with the command as the script,
/// and the combination as the overlay, in which a later entry replaces the
/// value of an earlier entry of the same name.
pub open spec fn launch_of(command: Seq<char>, combination: Seq<(Seq<char>, Seq<char>)>) -> Launch {
    Launch {
        program: "sh"@,
        arguments: seq!["-c"@, command],
        environment: put_all(combination),
    }
}

/// The launches for the combinations, one each, in their order.
pub open spec fn launches_of(
    command: Seq<char>,
    combinations: Seq<Seq<(Seq<char>, Seq<char>)>>,
) -> Seq<Launch> {
    Seq::new(combinations.len(), |k: int| launch_of(command, combinations[k]))
}

/// The environment overlay of a combination: its entries in their order,
/// where of two entries with one name the later one's value stands, at the
/// earlier one's place.
pub fn env_overlay(combination: &Vec<EnvVar>) -> (overlay: Vec<(String, String)>)
    ensures
        overlay.deep_view() == put_all(combination.deep_view()),
        names_distinct(overlay.deep_view()),
        as_map(overlay.deep_view()) == as_map(combination.deep_view()),
{
    let ghost entries = combination.deep_view();
    let mut overlay: Vec<(String, String)> = Vec::new();
    assert(entries.take(0) =~= Seq::empty());
    assert(overlay.deep_view() =~= Seq::empty());
    for i in 0..combination.len()
        invariant
            entries == combination.deep_view(),
            overlay.deep_view() == put_all(entries.take(i as int)),
    {
        proof {
            let upto = entries.take(i + 1);
            assert(upto.drop_last() =~= entries.take(i as int));
            assert(upto.last() == combination[i as int]@);
        }
        put_row(&mut overlay, combination[i].name.clone(), combination[i].value.clone());
    }
    proof {
        assert(entries.take(combination.len() as int) =~= entries);
        lemma_put_all(entries);
    }
    overlay
}

impl ExecutionUnit {
    /// The unit that runs `command` under one combination.
    pub fn new(command: &str, combination: &Vec<EnvVar>) -> (unit: ExecutionUnit)
        ensures
            unit.deep_view() == launch_of(command@, combination.deep_view()),
    {
        let mut arguments: Vec<String> = Vec::new();
        arguments.push("-c".to_owned());
        arguments.push(command.to_owned());
        let unit = ExecutionUnit {
            program: "sh".to_owned(),
            arguments,
            environment: env_overlay(combination),
        };
        assert(unit.arguments.deep_view() =~= seq!["-c"@, command@]);
        unit
    }
}

/// One unit per combination, in the combinations' order, each running
/// `command`.
pub fn plan_units(combinations: &Vec<Vec<EnvVar>>, command: &str) -> (units: Vec<ExecutionUnit>)
    ensures
        units.deep_view() == launches_of(command@, combinations.deep_view()),
{
    let mut units: Vec<ExecutionUnit> = Vec::new();
    for k in 0..combinations.len()
        invariant
            units.len() == k,
            forall|u: int|
                0 <= u < k ==> (#[trigger] units[u]).deep_view() == launch_of(
                    command@,
                    combinations[u].deep_view(),
                ),
    {
        units.push(ExecutionUnit::new(command, &combinations[k]));
    }
    assert(units.deep_view() =~= launches_of(command@, combinations.deep_view()));
    units
}

/// The units that run `command` once under every combination of the matrix,
/// or `TooManyCombinations` where their number is beyond `usize`.
pub fn plan_matrix(matrix: InputMatrix, command: &str) -> (planned: Result<
    Vec<ExecutionUnit>,
    PlanError,
>)
    ensures
        planned is Ok <==> count_of(matrix@) <= usize::MAX,
        planned is Ok ==> planned->Ok_0.deep_view() == launches_of(
            command@,
            combinations_of(matrix@),
        ),
        planned is Err ==> planned->Err_0 is TooManyCombinations,
{
    match matrix.combination_count() {
        Some(_) => {
            let combinations = get_combinations(matrix);
            Ok(plan_units(&combinations, command))
        },
        None => Err(PlanError::TooManyCombinations),
    }
}

/// What [`plan`] may return for a matrix text and a command: a parse error
/// exactly where the text is no matrix; else, for the variables of the text
/// in some order, what [`plan_matrix`] returns.
pub open spec fn plan_outcome(
    matrix_text: Seq<char>,
    command: Seq<char>,
    planned: Result<Vec<ExecutionUnit>, PlanError>,
) -> bool {
    match json_object(matrix_text) {
        None => planned is Err && planned->Err_0 is Parse,
        Some(object) => exists|matrix: Seq<(Seq<char>, Seq<Seq<char>>)>|
            {
                &&& names_distinct(matrix)
                &&& #[trigger] as_map(matrix) == object
                &&& match planned {
                    Ok(units) => {
                        &&& count_of(matrix) <= usize::MAX
                        &&& units.deep_view() == launches_of(command, combinations_of(matrix))
                    },
                    Err(error) => {
                        &&& count_of(matrix) > usize::MAX
                        &&& error is TooManyCombinations
                    },
                }
            },
    }
}

/// Reads the matrix from JSON text and plans one run of `command` per
/// combination. A text that is no matrix plans nothing.
pub fn plan(matrix_text: &str, command: &str) -> (planned: Result<Vec<ExecutionUnit>, PlanError>)
    ensures
        plan_outcome(matrix_text@, command@, planned),
{
    match parse_matrix(matrix_text) {
        Ok(matrix) => {
            let ghost rows = matrix@;
            let planned = plan_matrix(matrix, command);
            assert(as_map(rows) == json_object(matrix_text@)->Some_0);
            planned
        },
        Err(error) => Err(PlanError::Parse(error)),
    }
}

/// As many runs are planned as the matrix has combinations. Where no two
/// variables share a name, the overlay of each run is its combination,
/// unchanged.
pub proof fn lemma_launch_per_combination(
    command: Seq<char>,
    matrix: Seq<(Seq<char>, Seq<Seq<char>>)>,
    k: int,
)
    requires
        0 <= k < combinations_of(matrix).len(),
    ensures
        launches_of(command, combinations_of(matrix)).len() == count_of(matrix),
        names_distinct(matrix) ==> launches_of(command, combinations_of(matrix))[k].environment
            == combinations_of(matrix)[k],
{
    if names_distinct(matrix) {
        lemma_names_of_combination(matrix, k);
        lemma_put_all_of_distinct(combinations_of(matrix)[k]);
    }
}

/// A variable without any value leaves nothing to run.
pub proof fn lemma_no_launch_without_values(
    command: Seq<char>,
    matrix: Seq<(Seq<char>, Seq<Seq<char>>)>,
    i: int,
)
    requires
        0 <= i < matrix.len(),
        matrix[i].1.len() == 0,
    ensures
        launches_of(command, combinations_of(matrix)) == Seq::<Launch>::empty(),
{
    lemma_empty_value_list(matrix, i);
    assert(launches_of(command, combinations_of(matrix)) =~= Seq::empty());
}

/// A matrix without variables runs the command exactly once, with nothing
/// laid over the inherited environment.
pub proof fn lemma_one_launch_without_variables(
    command: Seq<char>,
    matrix: Seq<(Seq<char>, Seq<Seq<char>>)>,
)
    requires
        matrix.len() == 0,
    ensures
        launches_of(command, combinations_of(matrix)) == seq![
            Launch {
                program: "sh"@,
                arguments: seq!["-c"@, command],
                environment: Seq::<(Seq<char>, Seq<char>)>::empty(),
            },
        ],
{
    lemma_no_variables(matrix);
    let launches = launches_of(command, combinations_of(matrix));
    assert(launches.len() == 1);
    assert(launches[0].environment =~= Seq::empty());
    assert(launches =~= seq![launches[0]]);
}

} // verus!
