//! The text form of an instance and of a solution.
//!
//! An instance of `n` jobs is written on `1 + 2 n` lines: the number of
//! jobs; for each job its processing time and its ready time; for each job
//! the row of setups paid by the jobs that follow it. Numbers are decimal;
//! on a line they are separated by blanks.

use crate::problem_1::models::{
    table_valid, Instance, InstanceMetrics, Solution, Task, MAX_JOBS,
};
use crate::problem_1::text::{
    count_fields, count_lines, decimal, field_at, fields_in, find_line_end, lemma_decimal,
    line_after, line_count, line_end, next_line, push_decimal, read_field, rest_is_blank,
    skip_blanks, Field, NEWLINE, SPACE,
};
use crate::file_handler::utf8_string;
use vstd::prelude::*;
use vstd::utf8::encode_utf8;

verus! {

/// Why a text is not an instance. Lines count from one.
#[derive(Debug, Clone, Copy, PartialEq, Eq, Structural)]
pub enum InstanceError {
    /// The text is empty.
    Empty,
    /// The first line is not one number.
    BadCount,
    /// The first line says that there are no jobs.
    ZeroCount,
    /// The text has `found` lines, where its number of jobs calls for
    /// `expected`: one, and two for each job.
    LineCount { expected: u64, found: u64 },
    /// This line of a job holds `found` fields, not two.
    JobFields { line: usize, found: usize },
    /// The first field on this line is no processing time.
    ProcessingTime { line: usize },
    /// The processing time on this line is zero.
    ZeroProcessingTime { line: usize },
    /// The second field on this line is no ready time.
    ReadyTime { line: usize },
    /// This row holds `found` fields, not one for each job.
    SetupFields { line: usize, found: usize },
    /// Field number `column` of the row on this line is no setup.
    SetupTime { line: usize, column: usize },
    /// The row on this line has the setup `setup` from a job to itself,
    /// which is not zero.
    Diagonal { line: usize, setup: u32 },
}

/// The line of a job: processing time, ready time.
pub open spec fn job_line(task: Task) -> Seq<u8> {
    decimal(task.processing_time as nat) + seq![SPACE] + decimal(task.ready_time as nat)
        + seq![NEWLINE]
}

/// The lines of the first `count` jobs.
pub open spec fn job_lines(tasks: Seq<Task>, count: nat) -> Seq<u8>
    decreases count,
{
    if count == 0 {
        Seq::empty()
    } else {
        job_lines(tasks, (count - 1) as nat) + job_line(tasks[count - 1])
    }
}

/// The first `count` cells of a row: each number is followed by a space, the
/// last of the row by a line feed.
pub open spec fn row_cells(row: Seq<u32>, count: nat) -> Seq<u8>
    decreases count,
{
    if count == 0 {
        Seq::empty()
    } else {
        row_cells(row, (count - 1) as nat) + decimal(row[count - 1] as nat) + seq![
            if count == row.len() {
                NEWLINE
            } else {
                SPACE
            },
        ]
    }
}

/// The setup rows of the first `count` jobs.
pub open spec fn matrix_lines(tasks: Seq<Task>, count: nat) -> Seq<u8>
    decreases count,
{
    if count == 0 {
        Seq::empty()
    } else {
        matrix_lines(tasks, (count - 1) as nat) + row_cells(
            tasks[count - 1].switch_time@,
            tasks[count - 1].switch_time@.len(),
        )
    }
}

/// The text of an instance.
pub open spec fn instance_text(tasks: Seq<Task>) -> Seq<u8> {
    decimal(tasks.len()) + seq![NEWLINE] + job_lines(tasks, tasks.len()) + matrix_lines(
        tasks,
        tasks.len(),
    )
}

/// What a text says of an instance: for each job its processing time and
/// its ready time, and for each job its row of setups.
pub struct Parsed {
    pub jobs: Seq<(u32, u32)>,
    pub rows: Seq<Seq<u32>>,
}

/// The line number `line` as errors carry it: itself, or the largest number
/// there is where it is larger.
pub open spec fn line_of(line: int) -> usize {
    if line <= usize::MAX {
        line as usize
    } else {
        usize::MAX
    }
}

/// The number of jobs that the first line gives, and where the second line
/// starts.
pub open spec fn count_of(s: Seq<u8>) -> Result<(nat, int), InstanceError> {
    let hi = line_end(s, 0);
    if s.len() == 0 {
        Err(InstanceError::Empty)
    } else {
        match field_at(s, 0, hi, u32::MAX as u64) {
            Field::Number { value, next } => if skip_blanks(s, next as int, hi) < hi {
                Err(InstanceError::BadCount)
            } else if value == 0 {
                Err(InstanceError::ZeroCount)
            } else {
                Ok((value as nat, line_after(s, hi)))
            },
            _ => Err(InstanceError::BadCount),
        }
    }
}

/// The job on the line that starts at `pos`, which is line number `line`,
/// and where the next line starts. The fields are counted first; then the
/// processing time is read and must not be zero; then the ready time.
pub open spec fn job_at(s: Seq<u8>, pos: int, line: int) -> Result<((u32, u32), int), InstanceError> {
    let hi = line_end(s, pos);
    let found = fields_in(s, pos, hi, false);
    if found != 2 {
        Err(InstanceError::JobFields { line: line_of(line), found: found as usize })
    } else {
        match field_at(s, pos, hi, u32::MAX as u64) {
            Field::Number { value: p, next } => if p == 0 {
                Err(InstanceError::ZeroProcessingTime { line: line_of(line) })
            } else {
                match field_at(s, next as int, hi, u32::MAX as u64) {
                    Field::Number { value: r, next: after } => Ok(
                        ((p as u32, r as u32), line_after(s, hi)),
                    ),
                    _ => Err(InstanceError::ReadyTime { line: line_of(line) }),
                }
            },
            _ => Err(InstanceError::ProcessingTime { line: line_of(line) }),
        }
    }
}

/// The first `count` jobs, read from the lines that start at `start`, and
/// where the line after them starts.
pub open spec fn jobs_upto(s: Seq<u8>, start: int, count: nat) -> Result<
    (Seq<(u32, u32)>, int),
    InstanceError,
>
    decreases count,
{
    if count == 0 {
        Ok((Seq::empty(), start))
    } else {
        match jobs_upto(s, start, (count - 1) as nat) {
            Err(e) => Err(e),
            Ok((jobs, pos)) => match job_at(s, pos, (count + 1) as int) {
                Err(e) => Err(e),
                Ok((job, next)) => Ok((jobs.push(job), next)),
            },
        }
    }
}

/// The first `count` numbers of the line that ends at `hi`, read from `pos`
/// on, and the position behind the last of them; or the number, from one,
/// of the first field that is no number.
pub open spec fn cells_upto(s: Seq<u8>, pos: int, hi: int, count: nat) -> Result<
    (Seq<u32>, int),
    nat,
>
    decreases count,
{
    if count == 0 {
        Ok((Seq::empty(), pos))
    } else {
        match cells_upto(s, pos, hi, (count - 1) as nat) {
            Err(column) => Err(column),
            Ok((cells, cursor)) => match field_at(s, cursor, hi, u32::MAX as u64) {
                Field::Number { value, next } => Ok((cells.push(value as u32), next as int)),
                _ => Err(count),
            },
        }
    }
}

/// The row of job `job` of `n`, read from the line that starts at `pos`,
/// which is line number `line`, and where the next line starts. The fields
/// are counted first; then they are read from the left, and the setup of
/// the job to itself is looked at as soon as it is read.
pub open spec fn row_at(s: Seq<u8>, pos: int, n: nat, job: int, line: int) -> Result<
    (Seq<u32>, int),
    InstanceError,
> {
    let hi = line_end(s, pos);
    let found = fields_in(s, pos, hi, false);
    if found != n {
        Err(InstanceError::SetupFields { line: line_of(line), found: found as usize })
    } else {
        match cells_upto(s, pos, hi, (job + 1) as nat) {
            Err(column) => Err(
                InstanceError::SetupTime { line: line_of(line), column: column as usize },
            ),
            Ok((head, _)) => if head[job] != 0 {
                Err(InstanceError::Diagonal { line: line_of(line), setup: head[job] })
            } else {
                match cells_upto(s, pos, hi, n) {
                    Err(column) => Err(
                        InstanceError::SetupTime { line: line_of(line), column: column as usize },
                    ),
                    Ok((cells, _)) => Ok((cells, line_after(s, hi))),
                }
            },
        }
    }
}

/// The rows of the first `count` of `n` jobs, read from the lines that start
/// at `start`, and where the line after them starts.
pub open spec fn rows_upto(s: Seq<u8>, start: int, n: nat, count: nat) -> Result<
    (Seq<Seq<u32>>, int),
    InstanceError,
>
    decreases count,
{
    if count == 0 {
        Ok((Seq::empty(), start))
    } else {
        match rows_upto(s, start, n, (count - 1) as nat) {
            Err(e) => Err(e),
            Ok((rows, pos)) => match row_at(s, pos, n, count - 1, (count + 1 + n) as int) {
                Err(e) => Err(e),
                Ok((row, next)) => Ok((rows.push(row), next)),
            },
        }
    }
}

/// What the text `s` says, or why it is no instance. The number of jobs
/// is read first, then the lines are counted, and only a text with the
/// right number of lines is read line by line.
pub open spec fn parse_text(s: Seq<u8>) -> Result<Parsed, InstanceError> {
    match count_of(s) {
        Err(e) => Err(e),
        Ok((n, first)) => if line_count(s) != 1 + 2 * n {
            Err(
                InstanceError::LineCount {
                    expected: (1 + 2 * n) as u64,
                    found: line_count(s) as u64,
                },
            )
        } else {
            match jobs_upto(s, first, n) {
                Err(e) => Err(e),
                Ok((jobs, second)) => match rows_upto(s, second, n, n) {
                    Err(e) => Err(e),
                    Ok((rows, _)) => Ok(Parsed { jobs, rows }),
                },
            }
        },
    }
}

/// `tasks` is the job table that `parsed` describes.
pub open spec fn describes(parsed: Parsed, tasks: Seq<Task>) -> bool {
    &&& tasks.len() == parsed.jobs.len()
    &&& tasks.len() == parsed.rows.len()
    &&& forall|i: int|
        0 <= i < tasks.len() ==> {
            &&& (#[trigger] tasks[i]).id == i
            &&& tasks[i].processing_time == parsed.jobs[i].0
            &&& tasks[i].ready_time == parsed.jobs[i].1
            &&& tasks[i].switch_time@ == parsed.rows[i]
        }
}

/// What `tasks` says of its jobs.
pub open spec fn parsed_of(tasks: Seq<Task>) -> Parsed {
    Parsed {
        jobs: Seq::new(tasks.len(), |i: int| (tasks[i].processing_time, tasks[i].ready_time)),
        rows: Seq::new(tasks.len(), |i: int| tasks[i].switch_time@),
    }
}

/// The string made of the ASCII bytes `bytes`.
pub fn string_of_ascii(bytes: Vec<u8>) -> (text: String)
    requires
        is_ascii_text(bytes@),
    ensures
        encode_utf8(text@) == bytes@,
{
    proof {
        let chars = Seq::new(bytes@.len(), |i: int| bytes@[i] as char);
        assert(vstd::utf8::is_ascii_chars(chars));
        vstd::utf8::is_ascii_chars_encode_utf8(chars);
        assert(encode_utf8(chars) =~= bytes@);
        vstd::utf8::encode_utf8_valid_utf8(chars);
    }
    match utf8_string(bytes) {
        Ok(text) => text,
        Err(_) => String::new(),
    }
}

/// Reads the job on the line that starts at `pos`.
fn read_job(s: &[u8], pos: usize, line: usize) -> (r: Result<((u32, u32), usize), InstanceError>)
    requires
        pos <= s@.len(),
    ensures
        match job_at(s@, pos as int, line as int) {
            Err(e) => r matches Err(f) && f == e,
            Ok((job, next)) => r matches Ok((read, after)) && read == job && after == next && pos
                <= next <= s@.len(),
        },
{
    let hi: usize = find_line_end(s, pos);
    let found: usize = count_fields(s, pos, hi);
    if found != 2 {
        return Err(InstanceError::JobFields { line, found });
    }
    match read_field(s, pos, hi, u32::MAX as u64) {
        Field::Number { value: p, next } => if p == 0 {
            Err(InstanceError::ZeroProcessingTime { line })
        } else {
            match read_field(s, next, hi, u32::MAX as u64) {
                Field::Number { value: r, next: after } => Ok(
                    ((p as u32, r as u32), next_line(s, hi)),
                ),
                _ => Err(InstanceError::ReadyTime { line }),
            }
        },
        _ => Err(InstanceError::ProcessingTime { line }),
    }
}

/// Reads the row of job `job` of `n` from the line that starts at `pos`.
fn read_row(s: &[u8], pos: usize, n: usize, job: usize, line: usize) -> (r: Result<
    (Vec<u32>, usize),
    InstanceError,
>)
    requires
        pos <= s@.len(),
        job < n,
    ensures
        match row_at(s@, pos as int, n as nat, job as int, line as int) {
            Err(e) => r matches Err(f) && f == e,
            Ok((row, next)) => r matches Ok((cells, after)) && cells@ == row && after == next
                && pos <= next <= s@.len() && row.len() == n && row[job as int] == 0,
        },
{
    let hi: usize = find_line_end(s, pos);
    let found: usize = count_fields(s, pos, hi);
    if found != n {
        return Err(InstanceError::SetupFields { line, found });
    }
    let mut cells: Vec<u32> = Vec::new();
    let mut cursor: usize = pos;
    let mut j: usize = 0;
    let ghost mut head: (Seq<u32>, int) = (Seq::empty(), 0);
    while j < n
        invariant
            j <= n,
            job < n,
            pos <= cursor <= hi <= s@.len(),
            hi == line_end(s@, pos as int),
            fields_in(s@, pos as int, hi as int, false) == n,
            cells@.len() == j,
            cells_upto(s@, pos as int, hi as int, j as nat) == Ok::<(Seq<u32>, int), nat>(
                (cells@, cursor as int),
            ),
            j > job ==> cells_upto(s@, pos as int, hi as int, (job + 1) as nat) == Ok::<
                (Seq<u32>, int),
                nat,
            >(head) && head.0[job as int] == 0 && cells@[job as int] == 0,
        decreases n - j,
    {
        match read_field(s, cursor, hi, u32::MAX as u64) {
            Field::Number { value, next } => {
                cells.push(value as u32);
                cursor = next;
            },
            _ => {
                proof {
                    assert(cells_upto(s@, pos as int, hi as int, (j + 1) as nat) == Err::<
                        (Seq<u32>, int),
                        nat,
                    >((j + 1) as nat));
                    lemma_cells_fail(s@, pos as int, hi as int, (j + 1) as nat, n as nat);
                    if j <= job {
                        lemma_cells_fail(
                            s@,
                            pos as int,
                            hi as int,
                            (j + 1) as nat,
                            (job + 1) as nat,
                        );
                    }
                }
                return Err(InstanceError::SetupTime { line, column: j + 1 });
            },
        }
        assert(cells_upto(s@, pos as int, hi as int, (j + 1) as nat) == Ok::<(Seq<u32>, int), nat>(
            (cells@, cursor as int),
        ));
        if j == job {
            proof {
                head = (cells@, cursor as int);
            }
            if cells[job] != 0 {
                return Err(InstanceError::Diagonal { line, setup: cells[job] });
            }
        }
        j = j + 1;
    }
    Ok((cells, next_line(s, hi)))
}

/// A row that cannot be read up to some cell cannot be read beyond it, and
/// fails at the same field.
proof fn lemma_cells_fail(s: Seq<u8>, pos: int, hi: int, count: nat, more: nat)
    requires
        count <= more,
        cells_upto(s, pos, hi, count) is Err,
    ensures
        cells_upto(s, pos, hi, more) == cells_upto(s, pos, hi, count),
    decreases more,
{
    if count < more {
        lemma_cells_fail(s, pos, hi, count, (more - 1) as nat);
    }
}

/// Jobs that cannot be read up to some line cannot be read beyond it, and
/// fail for the same reason.
proof fn lemma_jobs_fail(s: Seq<u8>, start: int, count: nat, more: nat)
    requires
        count <= more,
        jobs_upto(s, start, count) is Err,
    ensures
        jobs_upto(s, start, more) == jobs_upto(s, start, count),
    decreases more,
{
    if count < more {
        lemma_jobs_fail(s, start, count, (more - 1) as nat);
    }
}

/// Rows that cannot be read up to some line cannot be read beyond it, and
/// fail for the same reason.
proof fn lemma_rows_fail(s: Seq<u8>, start: int, n: nat, count: nat, more: nat)
    requires
        count <= more,
        rows_upto(s, start, n, count) is Err,
    ensures
        rows_upto(s, start, n, more) == rows_upto(s, start, n, count),
    decreases more,
{
    if count < more {
        lemma_rows_fail(s, start, n, count, (more - 1) as nat);
    }
}

/// The number of the line that stands `i + 2 + n` lines into the text.
fn line_number(i: usize, n: usize) -> (line: usize)
    requires
        i <= u32::MAX,
        n <= u32::MAX,
    ensures
        line == line_of(i + 2 + n),
{
    let sum: u64 = i as u64 + 2 + n as u64;
    if sum > usize::MAX as u64 {
        usize::MAX
    } else {
        sum as usize
    }
}

/// Reads an instance from its text. The instance read obeys the data model;
/// its metrics are not yet computed. It is fit for the algorithms if it has
/// no more than `MAX_JOBS` jobs.
pub fn parse_instance(s: &[u8]) -> (r: Result<Instance, InstanceError>)
    ensures
        match parse_text(s@) {
            Err(e) => r matches Err(f) && f == e,
            Ok(parsed) => r matches Ok(instance) && instance.n == instance.tasks@.len()
                && table_valid(instance.tasks@) && (instance.n <= MAX_JOBS ==> instance.valid())
                && describes(parsed, instance.tasks@) && instance.metrics == (InstanceMetrics {
                n: 0,
                total_processing: 0,
                total_setup: 0,
            }),
        },
{
    if s.len() == 0 {
        return Err(InstanceError::Empty);
    }
    let hi: usize = find_line_end(s, 0);
    let n: usize = match read_field(s, 0, hi, u32::MAX as u64) {
        Field::Number { value, next } => {
            if !rest_is_blank(s, next, hi) {
                return Err(InstanceError::BadCount);
            } else if value == 0 {
                return Err(InstanceError::ZeroCount);
            }
            value as usize
        },
        _ => {
            return Err(InstanceError::BadCount);
        },
    };
    let first: usize = next_line(s, hi);
    let found: usize = count_lines(s);
    let expected: u64 = 1 + 2 * (n as u64);
    if found as u64 != expected {
        return Err(InstanceError::LineCount { expected, found: found as u64 });
    }
    let mut jobs: Vec<(u32, u32)> = Vec::new();
    let mut pos: usize = first;
    let mut i: usize = 0;
    assert(count_of(s@) == Ok::<(nat, int), InstanceError>((n as nat, first as int)));
    while i < n
        invariant
            i <= n <= u32::MAX,
            count_of(s@) == Ok::<(nat, int), InstanceError>((n as nat, first as int)),
            line_count(s@) == 1 + 2 * n,
            first <= pos <= s@.len(),
            jobs_upto(s@, first as int, i as nat) == Ok::<(Seq<(u32, u32)>, int), InstanceError>(
                (jobs@, pos as int),
            ),
            jobs@.len() == i,
            forall|k: int| 0 <= k < i ==> (#[trigger] jobs@[k]).0 > 0,
        decreases n - i,
    {
        match read_job(s, pos, line_number(i, 0)) {
            Ok((job, next)) => {
                jobs.push(job);
                pos = next;
            },
            Err(e) => {
                proof {
                    assert(jobs_upto(s@, first as int, (i + 1) as nat) is Err);
                    lemma_jobs_fail(s@, first as int, (i + 1) as nat, n as nat);
                }
                return Err(e);
            },
        }
        i = i + 1;
    }
    let second: usize = pos;
    let mut tasks: Vec<Task> = Vec::new();
    let ghost mut rows: Seq<Seq<u32>> = Seq::empty();
    let mut i: usize = 0;
    while i < n
        invariant
            i <= n <= u32::MAX,
            second <= pos <= s@.len(),
            count_of(s@) == Ok::<(nat, int), InstanceError>((n as nat, first as int)),
            line_count(s@) == 1 + 2 * n,
            jobs_upto(s@, first as int, n as nat) == Ok::<(Seq<(u32, u32)>, int), InstanceError>(
                (jobs@, second as int),
            ),
            jobs@.len() == n,
            forall|k: int| 0 <= k < n ==> (#[trigger] jobs@[k]).0 > 0,
            rows_upto(s@, second as int, n as nat, i as nat) == Ok::<
                (Seq<Seq<u32>>, int),
                InstanceError,
            >((rows, pos as int)),
            rows.len() == i,
            tasks@.len() == i,
            forall|k: int|
                0 <= k < i ==> {
                    &&& (#[trigger] tasks@[k]).id == k
                    &&& tasks@[k].processing_time == jobs@[k].0
                    &&& tasks@[k].ready_time == jobs@[k].1
                    &&& tasks@[k].switch_time@ == rows[k]
                    &&& rows[k].len() == n
                    &&& rows[k][k] == 0
                },
        decreases n - i,
    {
        match read_row(s, pos, n, i, line_number(i, n)) {
            Ok((row, next)) => {
                let ghost rows_before = rows;
                let ghost tasks_before = tasks@;
                let ghost cells = row@;
                proof {
                    rows = rows.push(row@);
                }
                tasks.push(
                    Task {
                        id: i as u32,
                        ready_time: jobs[i].1,
                        processing_time: jobs[i].0,
                        switch_time: row,
                    },
                );
                pos = next;
                proof {
                    assert forall|k: int| 0 <= k < i + 1 implies {
                        &&& (#[trigger] tasks@[k]).id == k
                        &&& tasks@[k].processing_time == jobs@[k].0
                        &&& tasks@[k].ready_time == jobs@[k].1
                        &&& tasks@[k].switch_time@ == rows[k]
                        &&& rows[k].len() == n
                        &&& rows[k][k] == 0
                    } by {
                        if k < i {
                            assert(tasks@[k] == tasks_before[k]);
                            assert(rows[k] == rows_before[k]);
                        } else {
                            assert(tasks@[k].switch_time@ == cells);
                            assert(rows[k] == cells);
                        }
                    }
                }
            },
            Err(e) => {
                proof {
                    assert(rows_upto(s@, second as int, n as nat, (i + 1) as nat) is Err);
                    lemma_rows_fail(s@, second as int, n as nat, (i + 1) as nat, n as nat);
                }
                return Err(e);
            },
        }
        i = i + 1;
    }
    Ok(
        Instance {
            n,
            tasks,
            metrics: InstanceMetrics { n: 0, total_processing: 0, total_setup: 0 },
        },
    )
}

/// Writes an instance as text.
pub fn format_instance(instance: &Instance) -> (out: Vec<u8>)
    requires
        instance.wf(),
    ensures
        out@ == instance_text(instance.tasks@),
        is_ascii_text(out@),
{
    let n: usize = instance.tasks.len();
    let ghost tasks = instance.tasks@;
    let mut out: Vec<u8> = Vec::new();
    push_decimal(&mut out, n as u64);
    out.push(NEWLINE);
    let ghost head = out@;
    proof {
        assert(head =~= decimal(n as nat) + seq![NEWLINE]);
    }
    let mut i: usize = 0;
    while i < n
        invariant
            i <= n,
            n == tasks.len(),
            tasks == instance.tasks@,
            out@ == head + job_lines(tasks, i as nat),
        decreases n - i,
    {
        let ghost before = out@;
        push_decimal(&mut out, instance.tasks[i].processing_time as u64);
        out.push(SPACE);
        push_decimal(&mut out, instance.tasks[i].ready_time as u64);
        out.push(NEWLINE);
        proof {
            assert(out@ =~= before + job_line(tasks[i as int]));
            assert(out@ =~= head + job_lines(tasks, (i + 1) as nat));
        }
        i = i + 1;
    }
    let ghost upper = out@;
    let mut i: usize = 0;
    while i < n
        invariant
            i <= n,
            n == tasks.len(),
            tasks == instance.tasks@,
            instance.wf(),
            out@ == upper + matrix_lines(tasks, i as nat),
        decreases n - i,
    {
        let ghost before = out@;
        let ghost row = tasks[i as int].switch_time@;
        assert(row.len() == n);
        let mut j: usize = 0;
        while j < n
            invariant
                j <= n,
                i < n,
                n == tasks.len(),
                tasks == instance.tasks@,
                row == tasks[i as int].switch_time@,
                row.len() == n,
                out@ == before + row_cells(row, j as nat),
            decreases n - j,
        {
            let ghost cells = out@;
            push_decimal(&mut out, instance.tasks[i].switch_time[j] as u64);
            out.push(
                if j == n - 1 {
                    NEWLINE
                } else {
                    SPACE
                },
            );
            proof {
                assert(out@ =~= before + row_cells(row, (j + 1) as nat));
            }
            j = j + 1;
        }
        proof {
            assert(out@ =~= upper + matrix_lines(tasks, (i + 1) as nat));
        }
        i = i + 1;
    }
    proof {
        assert(out@ =~= instance_text(tasks));
        lemma_text_is_ascii(tasks);
    }
    out
}

/// Every byte is ASCII.
pub open spec fn is_ascii_text(s: Seq<u8>) -> bool {
    forall|i: int| 0 <= i < s.len() ==> (#[trigger] s[i]) < 128
}

/// Two ASCII texts joined are ASCII.
proof fn lemma_ascii_joined(a: Seq<u8>, b: Seq<u8>)
    requires
        is_ascii_text(a),
        is_ascii_text(b),
    ensures
        is_ascii_text(a + b),
{
    assert forall|i: int| 0 <= i < (a + b).len() implies (#[trigger] (a + b)[i]) < 128 by {
        if i < a.len() {
            assert((a + b)[i] == a[i]);
        } else {
            assert((a + b)[i] == b[i - a.len()]);
        }
    }
}

/// Digits are ASCII.
proof fn lemma_decimal_is_ascii(v: nat)
    ensures
        is_ascii_text(decimal(v)),
{
    lemma_decimal(v);
}

/// The text of an instance is made of digits, spaces and line feeds.
pub proof fn lemma_text_is_ascii(tasks: Seq<Task>)
    ensures
        is_ascii_text(instance_text(tasks)),
{
    lemma_lines_are_ascii(tasks, tasks.len());
    lemma_decimal_is_ascii(tasks.len());
    lemma_ascii_joined(decimal(tasks.len()), seq![NEWLINE]);
    lemma_ascii_joined(decimal(tasks.len()) + seq![NEWLINE], job_lines(tasks, tasks.len()));
    lemma_ascii_joined(
        decimal(tasks.len()) + seq![NEWLINE] + job_lines(tasks, tasks.len()),
        matrix_lines(tasks, tasks.len()),
    );
}

/// Job lines and setup rows are ASCII.
proof fn lemma_lines_are_ascii(tasks: Seq<Task>, count: nat)
    ensures
        is_ascii_text(job_lines(tasks, count)),
        is_ascii_text(matrix_lines(tasks, count)),
    decreases count,
{
    if count > 0 {
        lemma_lines_are_ascii(tasks, (count - 1) as nat);
        let t = tasks[count - 1];
        let (p, r) = (decimal(t.processing_time as nat), decimal(t.ready_time as nat));
        lemma_decimal_is_ascii(t.processing_time as nat);
        lemma_decimal_is_ascii(t.ready_time as nat);
        lemma_ascii_joined(p, seq![SPACE]);
        lemma_ascii_joined(p + seq![SPACE], r);
        lemma_ascii_joined(p + seq![SPACE] + r, seq![NEWLINE]);
        lemma_ascii_joined(job_lines(tasks, (count - 1) as nat), job_line(t));
        lemma_cells_are_ascii(t.switch_time@, t.switch_time@.len());
        lemma_ascii_joined(
            matrix_lines(tasks, (count - 1) as nat),
            row_cells(t.switch_time@, t.switch_time@.len()),
        );
    }
}

/// The cells of a row are ASCII.
proof fn lemma_cells_are_ascii(row: Seq<u32>, count: nat)
    ensures
        is_ascii_text(row_cells(row, count)),
    decreases count,
{
    if count > 0 {
        lemma_cells_are_ascii(row, (count - 1) as nat);
        let before = row_cells(row, (count - 1) as nat);
        let number = decimal(row[count - 1] as nat);
        let mark = seq![
            if count == row.len() {
                NEWLINE
            } else {
                SPACE
            },
        ];
        lemma_decimal_is_ascii(row[count - 1] as nat);
        lemma_ascii_joined(before, number);
        lemma_ascii_joined(before + number, mark);
    }
}

impl Instance {
    /// Reads an instance from its text. The instance read obeys the data
    /// model; its metrics are not yet computed. It is fit for the algorithms
    /// if it has no more than `MAX_JOBS` jobs.
    pub fn read(file_content: &String) -> (r: Result<Instance, InstanceError>)
        ensures
            match parse_text(encode_utf8(file_content@)) {
                Err(e) => r matches Err(f) && f == e,
                Ok(parsed) => r matches Ok(instance) && instance.n == instance.tasks@.len()
                    && table_valid(instance.tasks@) && (instance.n <= MAX_JOBS
                    ==> instance.valid()) && describes(parsed, instance.tasks@)
                    && instance.metrics == (InstanceMetrics {
                    n: 0,
                    total_processing: 0,
                    total_setup: 0,
                }),
            },
    {
        parse_instance(file_content.as_str().as_bytes())
    }

    /// The text of the instance.
    pub fn format(&self) -> (text: String)
        requires
            self.wf(),
        ensures
            encode_utf8(text@) == instance_text(self.tasks@),
    {
        string_of_ascii(format_instance(self))
    }
}

/// The text of a solution: its score on one line, then its jobs in order,
/// each followed by a space.
pub open spec fn solution_text(score: u64, order: Seq<usize>) -> Seq<u8> {
    decimal(score as nat) + seq![NEWLINE] + order_text(order, order.len())
}

/// The first `count` jobs of an order, each followed by a space.
pub open spec fn order_text(order: Seq<usize>, count: nat) -> Seq<u8>
    decreases count,
{
    if count == 0 {
        Seq::empty()
    } else {
        order_text(order, (count - 1) as nat) + decimal(order[count - 1] as nat) + seq![SPACE]
    }
}

/// The text of an order is ASCII.
proof fn lemma_order_is_ascii(order: Seq<usize>, count: nat)
    ensures
        is_ascii_text(order_text(order, count)),
    decreases count,
{
    if count > 0 {
        lemma_order_is_ascii(order, (count - 1) as nat);
        lemma_decimal_is_ascii(order[count - 1] as nat);
        lemma_ascii_joined(order_text(order, (count - 1) as nat), decimal(order[count - 1] as nat));
        lemma_ascii_joined(
            order_text(order, (count - 1) as nat) + decimal(order[count - 1] as nat),
            seq![SPACE],
        );
    }
}

impl Solution {
    /// The text of the solution.
    pub fn format(&self) -> (text: String)
        ensures
            encode_utf8(text@) == solution_text(self.score, self.tasks@),
    {
        let mut out: Vec<u8> = Vec::new();
        push_decimal(&mut out, self.score);
        out.push(NEWLINE);
        let ghost head = out@;
        let mut i: usize = 0;
        while i < self.tasks.len()
            invariant
                i <= self.tasks@.len(),
                out@ == head + order_text(self.tasks@, i as nat),
            decreases self.tasks@.len() - i,
        {
            let ghost before = out@;
            push_decimal(&mut out, self.tasks[i] as u64);
            out.push(SPACE);
            proof {
                assert(out@ =~= head + order_text(self.tasks@, (i + 1) as nat));
            }
            i = i + 1;
        }
        proof {
            assert(head =~= decimal(self.score as nat) + seq![NEWLINE]);
            lemma_decimal_is_ascii(self.score as nat);
            lemma_ascii_joined(decimal(self.score as nat), seq![NEWLINE]);
            lemma_order_is_ascii(self.tasks@, self.tasks@.len());
            lemma_ascii_joined(head, order_text(self.tasks@, self.tasks@.len()));
        }
        string_of_ascii(out)
    }
}

} // verus!
