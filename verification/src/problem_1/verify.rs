//! Checks of the text of an instance and of a solution.

use crate::problem_1::algo::heuristics;
use crate::problem_1::codec::{parse_instance, parse_text, InstanceError};
use crate::problem_1::models::{
    is_permutation, order_valid, table_wf, total_cost, Instance, Task, MAX_JOBS,
};
use crate::problem_1::text::{
    field_at, find_line_end, line_after, line_end, next_line, read_field, rest_is_blank,
    skip_blanks, Field,
};
use vstd::prelude::*;
use vstd::utf8::encode_utf8;

verus! {

/// Why a text is not a solution of an instance.
#[derive(Debug, Clone, Copy, PartialEq, Eq, Structural)]
pub enum SolutionError {
    /// The text is empty.
    Empty,
    /// The first line is not one number.
    BadScore,
    /// There is no second line.
    NoTasks,
    /// The second line holds something that is no job number.
    BadTask,
    /// The order has not as many jobs as the instance.
    WrongCount { found: usize },
    /// The order names a job that the instance does not have.
    UnknownTask { id: usize },
    /// The order names a job twice.
    RepeatedTask { id: usize },
    /// The order does not cost what the text says.
    ScoreMismatch { reported: u64, calculated: u64 },
}

/// Checks that `content` is the text of an instance that obeys the data
/// model, and says what is wrong where it is not.
pub fn verify_instance(content: &str) -> (r: Result<(), InstanceError>)
    ensures
        match parse_text(encode_utf8(content@)) {
            Err(e) => r == Err::<(), InstanceError>(e),
            Ok(_) => r is Ok,
        },
{
    match parse_instance(content.as_bytes()) {
        Ok(_) => Ok(()),
        Err(e) => Err(e),
    }
}

/// The cost of `order`, which may be partial and may repeat jobs.
pub fn calculate_score(tasks: &Vec<Task>, order: &Vec<usize>) -> (score: u64)
    requires
        table_wf(tasks@),
        order_valid(tasks@, order@),
        order@.len() <= MAX_JOBS,
    ensures
        score == total_cost(tasks@, order@),
{
    heuristics::calculate_score(tasks, order).0
}

/// The numbers on the line that ends at `hi`, read from `pos` on; nothing
/// where the line holds something else.
pub open spec fn ids_from(s: Seq<u8>, pos: int, hi: int) -> Option<Seq<usize>>
    decreases hi - pos,
{
    match field_at(s, pos, hi, u32::MAX as u64) {
        Field::Missing => Some(Seq::empty()),
        Field::Malformed => None,
        Field::Number { value, next } => if pos < next <= hi {
            match ids_from(s, next as int, hi) {
                None => None,
                Some(rest) => Some(seq![value as usize] + rest),
            }
        } else {
            None
        },
    }
}

/// The score and the order that the text `s` gives.
pub open spec fn solution_of(s: Seq<u8>) -> Result<(u64, Seq<usize>), SolutionError> {
    let hi = line_end(s, 0);
    let second = line_after(s, hi);
    if s.len() == 0 {
        Err(SolutionError::Empty)
    } else {
        match field_at(s, 0, hi, u64::MAX) {
            Field::Number { value, next } => if skip_blanks(s, next as int, hi) < hi {
                Err(SolutionError::BadScore)
            } else if second >= s.len() {
                Err(SolutionError::NoTasks)
            } else {
                match ids_from(s, second, line_end(s, second)) {
                    None => Err(SolutionError::BadTask),
                    Some(ids) => Ok((value, ids)),
                }
            },
            _ => Err(SolutionError::BadScore),
        }
    }
}

/// The first of the first `len` jobs of `order` that is no job of an
/// `n`-job instance.
pub open spec fn first_unknown(order: Seq<usize>, n: nat, len: nat) -> Option<usize>
    decreases len,
{
    if len == 0 {
        None
    } else {
        match first_unknown(order, n, (len - 1) as nat) {
            Some(id) => Some(id),
            None => if order[len - 1] >= n {
                Some(order[len - 1])
            } else {
                None
            },
        }
    }
}

/// The first of the first `len` jobs of `order` that stands in it before.
pub open spec fn first_repeated(order: Seq<usize>, len: nat) -> Option<usize>
    decreases len,
{
    if len == 0 {
        None
    } else {
        match first_repeated(order, (len - 1) as nat) {
            Some(id) => Some(id),
            None => if exists|i: int| 0 <= i < len - 1 && #[trigger] order[i] == order[len - 1] {
                Some(order[len - 1])
            } else {
                None
            },
        }
    }
}

/// What is wrong with `order` and `score` as a solution of `tasks`, if
/// anything: first the number of jobs is checked, then that every job is
/// known, then that none stands twice, then the score.
pub open spec fn check_order(tasks: Seq<Task>, score: u64, order: Seq<usize>) -> Result<
    (),
    SolutionError,
> {
    if order.len() != tasks.len() {
        Err(SolutionError::WrongCount { found: order.len() as usize })
    } else if let Some(id) = first_unknown(order, tasks.len(), order.len()) {
        Err(SolutionError::UnknownTask { id })
    } else if let Some(id) = first_repeated(order, order.len()) {
        Err(SolutionError::RepeatedTask { id })
    } else if total_cost(tasks, order) != score {
        Err(SolutionError::ScoreMismatch { reported: score, calculated: total_cost(tasks, order) as u64 })
    } else {
        Ok(())
    }
}

/// An order passes the check exactly if it names every job once and costs
/// what is claimed.
pub proof fn lemma_check_order(tasks: Seq<Task>, score: u64, order: Seq<usize>)
    ensures
        check_order(tasks, score, order) is Ok <==> is_permutation(order, tasks.len()) && score
            == total_cost(tasks, order),
{
    lemma_first_unknown(order, tasks.len(), order.len());
    lemma_first_repeated(order, order.len());
}

/// No job is unknown exactly if every job is below `n`.
proof fn lemma_first_unknown(order: Seq<usize>, n: nat, len: nat)
    requires
        len <= order.len(),
    ensures
        first_unknown(order, n, len) is None <==> forall|i: int|
            0 <= i < len ==> (#[trigger] order[i]) < n,
    decreases len,
{
    if len > 0 {
        lemma_first_unknown(order, n, (len - 1) as nat);
    }
}

/// No job is repeated exactly if the jobs differ pairwise.
proof fn lemma_first_repeated(order: Seq<usize>, len: nat)
    requires
        len <= order.len(),
    ensures
        first_repeated(order, len) is None <==> forall|i: int, j: int|
            0 <= i < j < len ==> order[i] != order[j],
    decreases len,
{
    if len > 0 {
        lemma_first_repeated(order, (len - 1) as nat);
        if first_repeated(order, len) is None {
            assert forall|i: int, j: int| 0 <= i < j < len implies order[i] != order[j] by {
                if j == len - 1 {
                    if order[i] == order[j] {
                        assert(exists|k: int| 0 <= k < len - 1 && #[trigger] order[k] == order[len - 1]);
                    }
                }
            }
        }
    }
}

/// Checks `score` and `order` as a solution of `instance`.
pub fn verify_order(instance: &Instance, score: u64, order: &Vec<usize>) -> (r: Result<
    (),
    SolutionError,
>)
    requires
        instance.wf(),
    ensures
        r == check_order(instance.tasks@, score, order@),
        r is Ok <==> is_permutation(order@, instance.tasks@.len()) && score == total_cost(
            instance.tasks@,
            order@,
        ),
{
    let n: usize = instance.tasks.len();
    proof {
        lemma_check_order(instance.tasks@, score, order@);
    }
    if order.len() != n {
        return Err(SolutionError::WrongCount { found: order.len() });
    }
    let mut i: usize = 0;
    while i < n
        invariant
            i <= n,
            n == order@.len(),
            n == instance.tasks@.len(),
            first_unknown(order@, n as nat, i as nat) is None,
        decreases n - i,
    {
        if order[i] >= n {
            proof {
                assert(first_unknown(order@, n as nat, (i + 1) as nat) == Some(order@[i as int]));
                lemma_unknown_stays(order@, n as nat, (i + 1) as nat, n as nat);
            }
            return Err(SolutionError::UnknownTask { id: order[i] });
        }
        i = i + 1;
    }
    proof {
        lemma_first_unknown(order@, n as nat, n as nat);
    }
    let mut seen: Vec<bool> = vec![false; n];
    let mut i: usize = 0;
    while i < n
        invariant
            i <= n,
            n == order@.len(),
            n == instance.tasks@.len(),
            first_unknown(order@, n as nat, n as nat) is None,
            seen@.len() == n,
            forall|k: int| 0 <= k < n ==> (#[trigger] order@[k]) < n,
            first_repeated(order@, i as nat) is None,
            forall|v: int|
                0 <= v < n ==> (#[trigger] seen@[v] <==> exists|k: int|
                    0 <= k < i && order@[k] == v),
        decreases n - i,
    {
        let id: usize = order[i];
        assert(order@[i as int] < n);
        if seen[id] {
            proof {
                let k = choose|k: int| 0 <= k < i && order@[k] == id;
                assert(first_repeated(order@, (i + 1) as nat) == Some(id));
                lemma_repeated_stays(order@, (i + 1) as nat, n as nat);
            }
            return Err(SolutionError::RepeatedTask { id });
        }
        let ghost before = seen@;
        seen.set(id, true);
        proof {
            assert forall|v: int| 0 <= v < n implies (#[trigger] seen@[v] <==> exists|k: int|
                0 <= k < i + 1 && order@[k] == v) by {
                if v == id {
                    assert(order@[i as int] == v);
                } else if before[v] {
                    let k = choose|k: int| 0 <= k < i && order@[k] == v;
                    assert(0 <= k < i + 1 && order@[k] == v);
                }
            }
        }
        i = i + 1;
    }
    let calculated: u64 = calculate_score(&instance.tasks, order);
    if calculated != score {
        return Err(SolutionError::ScoreMismatch { reported: score, calculated });
    }
    Ok(())
}

/// The first unknown job stays the first however far the scan goes on.
proof fn lemma_unknown_stays(order: Seq<usize>, n: nat, len: nat, more: nat)
    requires
        len <= more,
        first_unknown(order, n, len) is Some,
    ensures
        first_unknown(order, n, more) == first_unknown(order, n, len),
    decreases more,
{
    if len < more {
        lemma_unknown_stays(order, n, len, (more - 1) as nat);
    }
}

/// The first repeated job stays the first however far the scan goes on.
proof fn lemma_repeated_stays(order: Seq<usize>, len: nat, more: nat)
    requires
        len <= more,
        first_repeated(order, len) is Some,
    ensures
        first_repeated(order, more) == first_repeated(order, len),
    decreases more,
{
    if len < more {
        lemma_repeated_stays(order, len, (more - 1) as nat);
    }
}

/// Reads the numbers on the line that ends at `hi`, from `pos` on.
fn read_ids(s: &[u8], pos: usize, hi: usize) -> (ids: Option<Vec<usize>>)
    requires
        pos <= hi <= s@.len(),
    ensures
        match ids_from(s@, pos as int, hi as int) {
            None => ids is None,
            Some(found) => ids matches Some(v) && v@ == found,
        },
{
    let mut ids: Vec<usize> = Vec::new();
    let mut cursor: usize = pos;
    loop
        invariant
            pos <= cursor <= hi <= s@.len(),
            match ids_from(s@, cursor as int, hi as int) {
                None => ids_from(s@, pos as int, hi as int) is None,
                Some(rest) => ids_from(s@, pos as int, hi as int) == Some(ids@ + rest),
            },
        decreases hi - cursor,
    {
        match read_field(s, cursor, hi, u32::MAX as u64) {
            Field::Missing => {
                proof {
                    assert(ids@ + Seq::<usize>::empty() =~= ids@);
                }
                return Some(ids);
            },
            Field::Malformed => {
                return None;
            },
            Field::Number { value, next } => {
                let ghost before = ids@;
                ids.push(value as usize);
                proof {
                    match ids_from(s@, next as int, hi as int) {
                        Some(rest) => {
                            assert(before + (seq![value as usize] + rest) =~= ids@ + rest);
                        },
                        None => {},
                    }
                }
                cursor = next;
            },
        }
    }
}

/// Reads the score and the order that the text `content` gives.
pub fn parse_solution(content: &str) -> (r: Result<(u64, Vec<usize>), SolutionError>)
    ensures
        match solution_of(encode_utf8(content@)) {
            Err(e) => r matches Err(f) && f == e,
            Ok((score, order)) => r matches Ok((read, tasks)) && read == score && tasks@ == order,
        },
{
    let s: &[u8] = content.as_bytes();
    if s.len() == 0 {
        return Err(SolutionError::Empty);
    }
    let hi: usize = find_line_end(s, 0);
    let reported_score: u64 = match read_field(s, 0, hi, u64::MAX) {
        Field::Number { value, next } => {
            if !rest_is_blank(s, next, hi) {
                return Err(SolutionError::BadScore);
            }
            value
        },
        _ => {
            return Err(SolutionError::BadScore);
        },
    };
    let second: usize = next_line(s, hi);
    if second >= s.len() {
        return Err(SolutionError::NoTasks);
    }
    let end: usize = find_line_end(s, second);
    match read_ids(s, second, end) {
        None => Err(SolutionError::BadTask),
        Some(task_ids) => Ok((reported_score, task_ids)),
    }
}

/// Checks that `content` is the text of a solution of `instance`: a score on
/// the first line, an order on the second that names every job once and
/// costs what the first line says.
pub fn verify_solution(content: &str, instance: &Instance) -> (r: Result<(), SolutionError>)
    requires
        instance.wf(),
    ensures
        r == match solution_of(encode_utf8(content@)) {
            Err(e) => Err::<(), SolutionError>(e),
            Ok((score, order)) => check_order(instance.tasks@, score, order),
        },
{
    match parse_solution(content) {
        Err(e) => Err(e),
        Ok((reported_score, task_ids)) => verify_order(instance, reported_score, &task_ids),
    }
}

} // verus!
