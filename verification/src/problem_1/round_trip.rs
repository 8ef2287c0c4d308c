//! Reading the text of an instance gives the instance back.

use crate::problem_1::codec::{
    cells_upto, count_of, instance_text, job_at, job_line, job_lines, jobs_upto, matrix_lines,
    parse_text, parsed_of, row_at, row_cells, rows_upto, InstanceError, Parsed,
};
use crate::problem_1::models::{table_valid, table_wf, Task};
use crate::problem_1::text::{
    decimal, field_at, fields_in, is_blank, is_digit, lemma_decimal, lemma_digits_found,
    lemma_fields_run, lemma_line_feeds_sum,
    lemma_line_found, lemma_no_line_feeds, lemma_one_line_feed, line_count, line_feeds, skip_blanks, Field, NEWLINE,
    SPACE,
};
use vstd::prelude::*;

verus! {

/// `piece` stands in `s` at position `pos`.
pub open spec fn stands_at(s: Seq<u8>, pos: int, piece: Seq<u8>) -> bool {
    &&& 0 <= pos
    &&& pos + piece.len() <= s.len()
    &&& s.subrange(pos, pos + piece.len()) == piece
}

/// Where two pieces stand one behind the other, each stands in its place.
proof fn lemma_stands_split(s: Seq<u8>, pos: int, a: Seq<u8>, b: Seq<u8>)
    requires
        stands_at(s, pos, a + b),
    ensures
        stands_at(s, pos, a),
        stands_at(s, pos + a.len(), b),
{
    let whole = s.subrange(pos, pos + (a + b).len());
    assert(s.subrange(pos, pos + a.len()) =~= whole.subrange(0, a.len() as int));
    assert(whole.subrange(0, a.len() as int) =~= a);
    assert(s.subrange(pos + a.len(), pos + a.len() + b.len()) =~= whole.subrange(
        a.len() as int,
        (a + b).len() as int,
    ));
    assert(whole.subrange(a.len() as int, (a + b).len() as int) =~= b);
}

/// A piece that stands somewhere shows its bytes there.
proof fn lemma_stands_byte(s: Seq<u8>, pos: int, piece: Seq<u8>, k: int)
    requires
        stands_at(s, pos, piece),
        0 <= k < piece.len(),
    ensures
        s[pos + k] == piece[k],
{
    assert(s.subrange(pos, pos + piece.len())[k] == s[pos + k]);
}

/// A number that stands at `at`, with a blank or the end of the line behind
/// it, is the field read there.
proof fn lemma_field_found(s: Seq<u8>, at: int, hi: int, v: nat)
    requires
        s.len() <= usize::MAX,
        stands_at(s, at, decimal(v)),
        at + decimal(v).len() <= hi <= s.len(),
        at + decimal(v).len() < hi ==> is_blank(s[at + decimal(v).len()]),
        v <= u32::MAX,
    ensures
        field_at(s, at, hi, u32::MAX as u64) == (Field::Number {
            value: v as u64,
            next: (at + decimal(v).len()) as usize,
        }),
{
    lemma_decimal(v);
    lemma_stands_byte(s, at, decimal(v), 0);
    assert(is_digit(decimal(v)[0]));
    assert(skip_blanks(s, at, hi) == at);
    lemma_digits_found(s, at, hi, v);
}

/// A field read from a blank is the field read from behind it.
proof fn lemma_field_skips(s: Seq<u8>, at: int, hi: int)
    requires
        0 <= at < hi,
        is_blank(s[at]),
    ensures
        field_at(s, at, hi, u32::MAX as u64) == field_at(s, at + 1, hi, u32::MAX as u64),
{
    assert(skip_blanks(s, at, hi) == skip_blanks(s, at + 1, hi));
}

/// The line of a job, wherever it stands, is read as that job.
proof fn lemma_job_line_read(s: Seq<u8>, pos: int, task: Task, line: int)
    requires
        s.len() <= usize::MAX,
        stands_at(s, pos, job_line(task)),
        task.processing_time > 0,
    ensures
        job_at(s, pos, line) == Ok::<((u32, u32), int), InstanceError>(
            ((task.processing_time, task.ready_time), pos + job_line(task).len()),
        ),
{
    let p = decimal(task.processing_time as nat);
    let r = decimal(task.ready_time as nat);
    let sp = seq![SPACE];
    let nl = seq![NEWLINE];
    lemma_decimal(task.processing_time as nat);
    lemma_decimal(task.ready_time as nat);
    lemma_stands_split(s, pos, p + sp + r, nl);
    lemma_stands_split(s, pos, p + sp, r);
    lemma_stands_split(s, pos, p, sp);
    let gap = pos + p.len();
    let second = gap + 1;
    let hi = second + r.len();
    lemma_stands_byte(s, gap, sp, 0);
    lemma_stands_byte(s, hi, nl, 0);
    assert forall|k: int| pos <= k < hi implies s[k] != NEWLINE by {
        if k < gap {
            lemma_stands_byte(s, pos, p, k - pos);
            assert(is_digit(p[k - pos]));
        } else if k >= second {
            lemma_stands_byte(s, second, r, k - second);
            assert(is_digit(r[k - second]));
        }
    }
    lemma_line_found(s, pos, hi);
    lemma_field_found(s, pos, hi, task.processing_time as nat);
    lemma_field_skips(s, gap, hi);
    lemma_field_found(s, second, hi, task.ready_time as nat);
    assert forall|k: int| pos <= k < gap implies is_digit(s[k]) by {
        lemma_stands_byte(s, pos, p, k - pos);
    }
    assert forall|k: int| second <= k < hi implies is_digit(s[k]) by {
        lemma_stands_byte(s, second, r, k - second);
    }
    lemma_fields_run(s, pos, gap, hi, false);
    assert(fields_in(s, gap, hi, true) == fields_in(s, second, hi, false));
    lemma_fields_run(s, second, hi, hi, false);
}

/// The lines of the first jobs stand where the lines of all jobs stand, and
/// behind them stands the line of the next job.
proof fn lemma_job_lines_stand(s: Seq<u8>, pos: int, tasks: Seq<Task>, count: nat, k: nat)
    requires
        stands_at(s, pos, job_lines(tasks, count)),
        k <= count,
    ensures
        stands_at(s, pos, job_lines(tasks, k)),
        k < count ==> stands_at(s, pos + job_lines(tasks, k).len(), job_line(tasks[k as int])),
    decreases count - k,
{
    if k < count {
        lemma_job_lines_stand(s, pos, tasks, count, k + 1);
        lemma_stands_split(s, pos, job_lines(tasks, k), job_line(tasks[k as int]));
    }
}

/// The job lines of a valid table are read as its jobs.
proof fn lemma_jobs_read(s: Seq<u8>, pos: int, tasks: Seq<Task>, k: nat)
    requires
        s.len() <= usize::MAX,
        table_valid(tasks),
        stands_at(s, pos, job_lines(tasks, tasks.len())),
        k <= tasks.len(),
    ensures
        jobs_upto(s, pos, k) == Ok::<(Seq<(u32, u32)>, int), InstanceError>(
            (parsed_of(tasks).jobs.take(k as int), pos + job_lines(tasks, k).len()),
        ),
    decreases k,
{
    if k == 0 {
        assert(parsed_of(tasks).jobs.take(0) =~= Seq::empty());
    } else {
        let prev = (k - 1) as nat;
        lemma_jobs_read(s, pos, tasks, prev);
        lemma_job_lines_stand(s, pos, tasks, tasks.len(), prev);
        let task = tasks[prev as int];
        lemma_job_line_read(s, pos + job_lines(tasks, prev).len(), task, (k + 1) as int);
        assert(parsed_of(tasks).jobs.take(k as int) =~= parsed_of(tasks).jobs.take(
            prev as int,
        ).push((task.processing_time, task.ready_time)));
    }
}

/// The mark behind cell `j` of a row.
spec fn mark_of(row: Seq<u32>, j: int) -> u8 {
    if j + 1 == row.len() {
        NEWLINE
    } else {
        SPACE
    }
}

/// The first cells of a row stand where the whole row stands, and behind
/// them stand the next cell and its mark.
proof fn lemma_cells_stand(s: Seq<u8>, pos: int, row: Seq<u32>, count: nat, k: nat)
    requires
        stands_at(s, pos, row_cells(row, count)),
        k <= count,
    ensures
        stands_at(s, pos, row_cells(row, k)),
        k < count ==> stands_at(s, pos + row_cells(row, k).len(), decimal(row[k as int] as nat))
            && s[pos + row_cells(row, k).len() + decimal(row[k as int] as nat).len()] == mark_of(
            row,
            k as int,
        ) && row_cells(row, k + 1).len() == row_cells(row, k).len() + decimal(
            row[k as int] as nat,
        ).len() + 1,
    decreases count - k,
{
    if k < count {
        lemma_cells_stand(s, pos, row, count, k + 1);
        let before = row_cells(row, k);
        let number = decimal(row[k as int] as nat);
        let mark = seq![mark_of(row, k as int)];
        assert(row_cells(row, k + 1) == before + number + mark);
        lemma_stands_split(s, pos, before + number, mark);
        lemma_stands_split(s, pos, before, number);
        lemma_stands_byte(s, pos + before.len() + number.len(), mark, 0);
    }
}

/// Only the last byte of a whole row is a line feed.
proof fn lemma_cells_one_line(row: Seq<u32>, k: nat)
    requires
        k <= row.len(),
    ensures
        forall|i: int|
            0 <= i < row_cells(row, k).len() && (k < row.len() || i < row_cells(row, k).len() - 1)
                ==> (#[trigger] row_cells(row, k)[i]) != NEWLINE,
        k > 0 ==> row_cells(row, k).len() > 0,
        k == row.len() && k > 0 ==> row_cells(row, k)[row_cells(row, k).len() - 1] == NEWLINE,
    decreases k,
{
    if k > 0 {
        lemma_cells_one_line(row, (k - 1) as nat);
        let before = row_cells(row, (k - 1) as nat);
        let number = decimal(row[k - 1] as nat);
        let mark = seq![mark_of(row, k - 1)];
        lemma_decimal(row[k - 1] as nat);
        let all = row_cells(row, k);
        assert(all == before + number + mark);
        assert forall|i: int|
            0 <= i < all.len() && (k < row.len() || i < all.len() - 1) implies (#[trigger] all[i])
            != NEWLINE by {
            if i < before.len() {
                assert(all[i] == before[i]);
            } else if i < before.len() + number.len() {
                assert(all[i] == number[i - before.len()]);
                assert(is_digit(number[i - before.len()]));
            } else {
                assert(all[i] == mark[0]);
            }
        }
        assert(all[all.len() - 1] == mark[0]);
    }
}

/// The cells of a row that stands at `pos` are read one after the other.
proof fn lemma_cells_read(s: Seq<u8>, pos: int, hi: int, row: Seq<u32>, k: nat)
    requires
        s.len() <= usize::MAX,
        row.len() > 0,
        stands_at(s, pos, row_cells(row, row.len())),
        hi == pos + row_cells(row, row.len()).len() - 1,
        k <= row.len(),
    ensures
        cells_upto(s, pos, hi, k) == Ok::<(Seq<u32>, int), nat>(
            (
                row.take(k as int),
                if k == 0 {
                    pos
                } else {
                    pos + row_cells(row, k).len() - 1
                },
            ),
        ),
        k > 0 ==> fields_in(s, pos, hi, false) == k + fields_in(
            s,
            pos + row_cells(row, k).len() - 1,
            hi,
            true,
        ),
    decreases k,
{
    if k == 0 {
        assert(row.take(0) =~= Seq::empty());
    } else {
        let prev = (k - 1) as nat;
        lemma_cells_read(s, pos, hi, row, prev);
        lemma_cells_stand(s, pos, row, row.len(), prev);
        lemma_cells_stand(s, pos, row, row.len(), k);
        lemma_cells_one_line(row, row.len());
        let v = row[prev as int] as nat;
        let at = pos + row_cells(row, prev).len();
        let behind = at + decimal(v).len();
        assert(behind == pos + row_cells(row, k).len() - 1);
        assert(behind <= hi) by {
            lemma_cells_lengths(row, k, row.len());
        }
        if behind < hi {
            assert(k < row.len()) by {
                lemma_cells_lengths(row, k, row.len());
            }
            assert(s[behind] == SPACE);
        }
        lemma_field_found(s, at, hi, v);
        lemma_decimal(v);
        assert forall|i: int| at <= i < behind implies is_digit(s[i]) by {
            lemma_stands_byte(s, at, decimal(v), i - at);
        }
        lemma_fields_run(s, at, behind, hi, false);
        if prev > 0 {
            lemma_cells_stand(s, pos, row, row.len(), (prev - 1) as nat);
            assert(s[at - 1] == SPACE);
            lemma_field_skips(s, at - 1, hi);
            assert(fields_in(s, at - 1, hi, true) == fields_in(s, at, hi, false));
        }
        assert(row.take(k as int) =~= row.take(prev as int).push(row[prev as int]));
    }
}

/// More cells take more room.
proof fn lemma_cells_lengths(row: Seq<u32>, k: nat, more: nat)
    requires
        k <= more,
    ensures
        row_cells(row, k).len() <= row_cells(row, more).len(),
        k < more ==> row_cells(row, k).len() < row_cells(row, more).len(),
    decreases more,
{
    if k < more {
        lemma_cells_lengths(row, k, (more - 1) as nat);
    }
}

/// A row, wherever it stands, is read as that row.
proof fn lemma_row_read(s: Seq<u8>, pos: int, row: Seq<u32>, job: int, line: int)
    requires
        s.len() <= usize::MAX,
        row.len() > 0,
        stands_at(s, pos, row_cells(row, row.len())),
        0 <= job < row.len(),
        row[job] == 0,
    ensures
        row_at(s, pos, row.len(), job, line) == Ok::<(Seq<u32>, int), InstanceError>(
            (row, pos + row_cells(row, row.len()).len()),
        ),
{
    let text = row_cells(row, row.len());
    let hi = pos + text.len() - 1;
    lemma_cells_one_line(row, row.len());
    assert forall|k: int| pos <= k < hi implies s[k] != NEWLINE by {
        lemma_stands_byte(s, pos, text, k - pos);
    }
    lemma_stands_byte(s, pos, text, text.len() - 1);
    lemma_line_found(s, pos, hi);
    lemma_cells_read(s, pos, hi, row, row.len());
    lemma_cells_read(s, pos, hi, row, (job + 1) as nat);
    assert(row.take(row.len() as int) =~= row);
    assert(row.take(job + 1)[job] == row[job]);
}

/// The first rows stand where all rows stand, and behind them stands the
/// next row.
proof fn lemma_rows_stand(s: Seq<u8>, pos: int, tasks: Seq<Task>, count: nat, k: nat)
    requires
        stands_at(s, pos, matrix_lines(tasks, count)),
        k <= count,
    ensures
        stands_at(s, pos, matrix_lines(tasks, k)),
        k < count ==> stands_at(
            s,
            pos + matrix_lines(tasks, k).len(),
            row_cells(tasks[k as int].switch_time@, tasks[k as int].switch_time@.len()),
        ),
    decreases count - k,
{
    if k < count {
        lemma_rows_stand(s, pos, tasks, count, k + 1);
        lemma_stands_split(
            s,
            pos,
            matrix_lines(tasks, k),
            row_cells(tasks[k as int].switch_time@, tasks[k as int].switch_time@.len()),
        );
    }
}

/// The rows of a valid table are read as its setups.
proof fn lemma_rows_read(s: Seq<u8>, pos: int, tasks: Seq<Task>, k: nat)
    requires
        s.len() <= usize::MAX,
        table_valid(tasks),
        stands_at(s, pos, matrix_lines(tasks, tasks.len())),
        k <= tasks.len(),
    ensures
        rows_upto(s, pos, tasks.len(), k) == Ok::<(Seq<Seq<u32>>, int), InstanceError>(
            (parsed_of(tasks).rows.take(k as int), pos + matrix_lines(tasks, k).len()),
        ),
    decreases k,
{
    if k == 0 {
        assert(parsed_of(tasks).rows.take(0) =~= Seq::empty());
    } else {
        let prev = (k - 1) as nat;
        lemma_rows_read(s, pos, tasks, prev);
        lemma_rows_stand(s, pos, tasks, tasks.len(), prev);
        let row = tasks[prev as int].switch_time@;
        assert(row.len() == tasks.len());
        lemma_row_read(
            s,
            pos + matrix_lines(tasks, prev).len(),
            row,
            prev as int,
            (k + 1 + tasks.len()) as int,
        );
        assert(parsed_of(tasks).rows.take(k as int) =~= parsed_of(tasks).rows.take(
            prev as int,
        ).push(row));
    }
}

/// A number below `2^32` has at most ten digits.
proof fn lemma_decimal_len(v: nat)
    ensures
        decimal(v).len() >= 1,
        v < 10 ==> decimal(v).len() <= 1,
        v < 100 ==> decimal(v).len() <= 2,
        v < 1000 ==> decimal(v).len() <= 3,
        v < 10000 ==> decimal(v).len() <= 4,
        v < 100000 ==> decimal(v).len() <= 5,
        v < 1000000 ==> decimal(v).len() <= 6,
        v < 10000000 ==> decimal(v).len() <= 7,
        v < 100000000 ==> decimal(v).len() <= 8,
        v < 1000000000 ==> decimal(v).len() <= 9,
        v < 10000000000 ==> decimal(v).len() <= 10,
    decreases v,
{
    if v >= 10 {
        lemma_decimal_len(v / 10);
    }
}

/// The first lines and rows of a table of `n` jobs take at most 22 and
/// `11 n` bytes each.
proof fn lemma_lines_fit(tasks: Seq<Task>, k: nat)
    requires
        table_wf(tasks),
        k <= tasks.len(),
    ensures
        job_lines(tasks, k).len() <= 22 * k,
        matrix_lines(tasks, k).len() <= 11 * tasks.len() * k,
    decreases k,
{
    if k > 0 {
        let n = tasks.len();
        lemma_lines_fit(tasks, (k - 1) as nat);
        let t = tasks[k - 1];
        lemma_decimal_len(t.processing_time as nat);
        lemma_decimal_len(t.ready_time as nat);
        lemma_cells_fit(t.switch_time@, n);
        assert(11 * n * (k - 1) + 11 * n == 11 * n * k) by (nonlinear_arith);
    }
}

/// The first `k` cells of a row take at most eleven bytes each.
proof fn lemma_cells_fit(row: Seq<u32>, k: nat)
    requires
        k <= row.len(),
    ensures
        row_cells(row, k).len() <= 11 * k,
    decreases k,
{
    if k > 0 {
        lemma_cells_fit(row, (k - 1) as nat);
        lemma_decimal_len(row[k - 1] as nat);
    }
}

/// The text of a valid table of no more than 16384 jobs is shorter than
/// `2^32` bytes, and so fits in memory whatever the width of an address.
pub proof fn lemma_text_fits(tasks: Seq<Task>)
    requires
        table_valid(tasks),
        tasks.len() <= 16384,
    ensures
        instance_text(tasks).len() <= usize::MAX,
{
    let n = tasks.len();
    lemma_lines_fit(tasks, n);
    lemma_decimal_len(n);
    assert(11 * n * n <= 11 * 16384 * 16384) by (nonlinear_arith)
        requires
            n <= 16384,
    ;
}

/// The lines of the first `k` jobs hold `k` line feeds.
proof fn lemma_job_lines_counted(tasks: Seq<Task>, k: nat)
    ensures
        line_feeds(job_lines(tasks, k)) == k,
    decreases k,
{
    if k > 0 {
        let task = tasks[k - 1];
        let p = decimal(task.processing_time as nat);
        let r = decimal(task.ready_time as nat);
        lemma_job_lines_counted(tasks, (k - 1) as nat);
        lemma_decimal(task.processing_time as nat);
        lemma_decimal(task.ready_time as nat);
        assert forall|i: int| 0 <= i < p.len() implies p[i] != NEWLINE by {
            assert(is_digit(p[i]));
        }
        assert forall|i: int| 0 <= i < r.len() implies r[i] != NEWLINE by {
            assert(is_digit(r[i]));
        }
        lemma_no_line_feeds(p);
        lemma_no_line_feeds(r);
        lemma_no_line_feeds(seq![SPACE]);
        lemma_one_line_feed();
        lemma_line_feeds_sum(p, seq![SPACE]);
        lemma_line_feeds_sum(p + seq![SPACE], r);
        lemma_line_feeds_sum(p + seq![SPACE] + r, seq![NEWLINE]);
        lemma_line_feeds_sum(job_lines(tasks, (k - 1) as nat), job_line(task));
    }
}

/// A whole row holds one line feed, its last byte.
proof fn lemma_row_counted(row: Seq<u32>)
    requires
        row.len() > 0,
    ensures
        line_feeds(row_cells(row, row.len())) == 1,
        row_cells(row, row.len()).len() > 0,
        row_cells(row, row.len()).last() == NEWLINE,
{
    let text = row_cells(row, row.len());
    lemma_cells_one_line(row, row.len());
    assert forall|i: int| 0 <= i < text.drop_last().len() implies text.drop_last()[i]
        != NEWLINE by {
        assert(text.drop_last()[i] == text[i]);
    }
    lemma_no_line_feeds(text.drop_last());
}

/// The rows of the first `k` jobs of a valid table hold `k` line feeds, and
/// end in one.
proof fn lemma_rows_counted(tasks: Seq<Task>, k: nat)
    requires
        table_valid(tasks),
        k <= tasks.len(),
    ensures
        line_feeds(matrix_lines(tasks, k)) == k,
        k > 0 ==> matrix_lines(tasks, k).len() > 0 && matrix_lines(tasks, k).last() == NEWLINE,
    decreases k,
{
    if k > 0 {
        let row = tasks[k - 1].switch_time@;
        assert(row.len() == tasks.len());
        lemma_rows_counted(tasks, (k - 1) as nat);
        lemma_row_counted(row);
        lemma_line_feeds_sum(matrix_lines(tasks, (k - 1) as nat), row_cells(row, row.len()));
    }
}

/// The text of a valid table has a line for the number of jobs and two for
/// each job.
proof fn lemma_lines_counted(tasks: Seq<Task>)
    requires
        table_valid(tasks),
    ensures
        line_count(instance_text(tasks)) == 1 + 2 * tasks.len(),
{
    let n = tasks.len();
    let count = decimal(n);
    let nl = seq![NEWLINE];
    let jobs = job_lines(tasks, n);
    let rows = matrix_lines(tasks, n);
    lemma_decimal(n);
    assert forall|i: int| 0 <= i < count.len() implies count[i] != NEWLINE by {
        assert(is_digit(count[i]));
    }
    lemma_no_line_feeds(count);
    lemma_one_line_feed();
    lemma_job_lines_counted(tasks, n);
    lemma_rows_counted(tasks, n);
    lemma_line_feeds_sum(count, nl);
    lemma_line_feeds_sum(count + nl, jobs);
    lemma_line_feeds_sum(count + nl + jobs, rows);
    assert(instance_text(tasks).last() == rows.last());
}

/// A first line that holds the number of jobs and nothing else is read as
/// that number.
proof fn lemma_count_read(s: Seq<u8>, n: nat)
    requires
        s.len() <= usize::MAX,
        0 < n <= u32::MAX,
        stands_at(s, 0, decimal(n) + seq![NEWLINE]),
    ensures
        count_of(s) == Ok::<(nat, int), InstanceError>((n, decimal(n).len() as int + 1)),
{
    let count = decimal(n);
    let nl = seq![NEWLINE];
    lemma_stands_split(s, 0, count, nl);
    lemma_decimal(n);
    let hi = count.len() as int;
    lemma_stands_byte(s, hi, nl, 0);
    assert forall|k: int| 0 <= k < hi implies s[k] != NEWLINE by {
        lemma_stands_byte(s, 0, count, k);
        assert(is_digit(count[k]));
    }
    lemma_line_found(s, 0, hi);
    lemma_field_found(s, 0, hi, n);
    assert(skip_blanks(s, hi, hi) == hi);
}

/// In the text of a table its three parts stand one behind the other: the
/// line of the count, the lines of the jobs, the rows.
proof fn lemma_text_stands(tasks: Seq<Task>)
    ensures
        stands_at(instance_text(tasks), 0, decimal(tasks.len()) + seq![NEWLINE]),
        stands_at(
            instance_text(tasks),
            decimal(tasks.len()).len() as int + 1,
            job_lines(tasks, tasks.len()),
        ),
        stands_at(
            instance_text(tasks),
            decimal(tasks.len()).len() as int + 1 + job_lines(tasks, tasks.len()).len(),
            matrix_lines(tasks, tasks.len()),
        ),
        instance_text(tasks).len() == decimal(tasks.len()).len() + 1 + job_lines(
            tasks,
            tasks.len(),
        ).len() + matrix_lines(tasks, tasks.len()).len(),
{
    let n = tasks.len();
    let s = instance_text(tasks);
    let head = decimal(n) + seq![NEWLINE];
    let jobs = job_lines(tasks, n);
    let rows = matrix_lines(tasks, n);
    assert(s.subrange(0, s.len() as int) =~= s);
    assert(stands_at(s, 0, head + jobs + rows));
    lemma_stands_split(s, 0, head + jobs, rows);
    lemma_stands_split(s, 0, head, jobs);
}

/// A text in which the count, the job lines and the rows of a valid table
/// were read one behind the other, and which has the lines for them and no
/// more, is read as that table.
proof fn lemma_parts_read(s: Seq<u8>, tasks: Seq<Task>, first: int, second: int, end: int)
    requires
        count_of(s) == Ok::<(nat, int), InstanceError>((tasks.len(), first)),
        line_count(s) == 1 + 2 * tasks.len(),
        jobs_upto(s, first, tasks.len()) == Ok::<(Seq<(u32, u32)>, int), InstanceError>(
            (parsed_of(tasks).jobs.take(tasks.len() as int), second),
        ),
        rows_upto(s, second, tasks.len(), tasks.len()) == Ok::<
            (Seq<Seq<u32>>, int),
            InstanceError,
        >((parsed_of(tasks).rows.take(tasks.len() as int), end)),
    ensures
        parse_text(s) == Ok::<Parsed, InstanceError>(parsed_of(tasks)),
{
    let n = tasks.len();
    assert(parsed_of(tasks).jobs.take(n as int) =~= parsed_of(tasks).jobs);
    assert(parsed_of(tasks).rows.take(n as int) =~= parsed_of(tasks).rows);
}

/// Reading the text of a valid job table gives back what the table says of
/// its jobs: every processing time, ready time and setup. The text must be
/// one that memory can hold, which `lemma_text_fits` shows of every table
/// of no more than 16384 jobs.
pub proof fn lemma_round_trip(tasks: Seq<Task>)
    requires
        table_valid(tasks),
        instance_text(tasks).len() <= usize::MAX,
    ensures
        parse_text(instance_text(tasks)) == Ok::<Parsed, InstanceError>(parsed_of(tasks)),
{
    let n = tasks.len();
    let s = instance_text(tasks);
    let first = decimal(n).len() + 1;
    let second = first + job_lines(tasks, n).len();
    lemma_text_stands(tasks);
    lemma_count_read(s, n);
    lemma_jobs_read(s, first as int, tasks, n);
    lemma_rows_read(s, second as int, tasks, n);
    lemma_lines_counted(tasks);
    lemma_parts_read(s, tasks, first as int, second as int, s.len() as int);
}

} // verus!
