use crate::buckets::table_count;
use crate::utils::{Direction, PosType, PositionCounts};
use vstd::prelude::*;
use vstd::string::StringExecFns;

verus! {

/// The bases that the report has a row for, in the order of the rows.
pub open spec fn report_bases() -> Seq<char> {
    seq!['A', 'C', 'G', 'T', 'N']
}

/// The buckets that the report has a column for, in the order of the columns: forward
/// before reverse; within a direction, methylated before unmethylated; within both, the
/// cytosine before the guanine.
pub open spec fn report_columns() -> Seq<PosType> {
    seq![
        PosType { direction: Direction::Forward, methylation: true, cpg_position: 0 },
        PosType { direction: Direction::Forward, methylation: true, cpg_position: 1 },
        PosType { direction: Direction::Forward, methylation: false, cpg_position: 0 },
        PosType { direction: Direction::Forward, methylation: false, cpg_position: 1 },
        PosType { direction: Direction::Reverse, methylation: true, cpg_position: 0 },
        PosType { direction: Direction::Reverse, methylation: true, cpg_position: 1 },
        PosType { direction: Direction::Reverse, methylation: false, cpg_position: 0 },
        PosType { direction: Direction::Reverse, methylation: false, cpg_position: 1 },
    ]
}

/// The character that writes a digit.
pub open spec fn digit_char(digit: nat) -> char {
    (digit + '0' as nat) as char
}

/// A number written in decimal digits, without leading zeros.
pub open spec fn decimal_text(n: nat) -> Seq<char>
    decreases n,
{
    if n < 10 {
        seq![digit_char(n)]
    } else {
        decimal_text(n / 10).push(digit_char(n % 10))
    }
}

/// The cells of a row for the given columns: for each, a comma and the count of the base
/// in that bucket.
pub open spec fn row_cells(
    table: Map<PosType, Map<char, nat>>,
    base: char,
    columns: Seq<PosType>,
) -> Seq<char>
    decreases columns.len(),
{
    if columns.len() == 0 {
        Seq::empty()
    } else {
        row_cells(table, base, columns.drop_last()) + seq![','] + decimal_text(
            table_count(table, columns.last(), base),
        )
    }
}

/// The rows of the report for the given bases, each row ended by a line feed: the base,
/// and its cells.
pub open spec fn report_rows(table: Map<PosType, Map<char, nat>>, bases: Seq<char>) -> Seq<char>
    decreases bases.len(),
{
    if bases.len() == 0 {
        Seq::empty()
    } else {
        report_rows(table, bases.drop_last()) + seq![bases.last()] + row_cells(
            table,
            bases.last(),
            report_columns(),
        ) + seq!['\n']
    }
}

/// The report of a table: one row for each of the bases A, C, G, T and N, with the count of
/// that base in each of the eight buckets.
pub open spec fn report_text(table: Map<PosType, Map<char, nat>>) -> Seq<char> {
    report_rows(table, report_bases())
}

fn digit_str(digit: usize) -> (r: &'static str)
    requires
        digit < 10,
    ensures
        r@ == seq![digit_char(digit as nat)],
{
    proof {
        reveal_strlit("0");
        reveal_strlit("1");
        reveal_strlit("2");
        reveal_strlit("3");
        reveal_strlit("4");
        reveal_strlit("5");
        reveal_strlit("6");
        reveal_strlit("7");
        reveal_strlit("8");
        reveal_strlit("9");
    }
    let r = if digit == 0 {
        "0"
    } else if digit == 1 {
        "1"
    } else if digit == 2 {
        "2"
    } else if digit == 3 {
        "3"
    } else if digit == 4 {
        "4"
    } else if digit == 5 {
        "5"
    } else if digit == 6 {
        "6"
    } else if digit == 7 {
        "7"
    } else if digit == 8 {
        "8"
    } else {
        "9"
    };
    assert(r@ =~= seq![digit_char(digit as nat)]);
    r
}

fn base_str(index: usize) -> (r: &'static str)
    requires
        index < 5,
    ensures
        r@ == seq![report_bases()[index as int]],
{
    proof {
        reveal_strlit("A");
        reveal_strlit("C");
        reveal_strlit("G");
        reveal_strlit("T");
        reveal_strlit("N");
    }
    let r = if index == 0 {
        "A"
    } else if index == 1 {
        "C"
    } else if index == 2 {
        "G"
    } else if index == 3 {
        "T"
    } else {
        "N"
    };
    assert(r@ =~= seq![report_bases()[index as int]]);
    r
}

/// Writes a number in decimal digits at the end of the text.
fn append_decimal(text: &mut String, n: usize)
    ensures
        final(text)@ == old(text)@ + decimal_text(n as nat),
    decreases n,
{
    if n < 10 {
        text.append(digit_str(n));
    } else {
        append_decimal(text, n / 10);
        text.append(digit_str(n % 10));
        assert(text@ =~= old(text)@ + decimal_text(n as nat));
    }
}

fn columns() -> (r: Vec<PosType>)
    ensures
        r@ == report_columns(),
{
    let mut keys: Vec<PosType> = Vec::new();
    keys.push(PosType::new(Direction::Forward, true, 0));
    keys.push(PosType::new(Direction::Forward, true, 1));
    keys.push(PosType::new(Direction::Forward, false, 0));
    keys.push(PosType::new(Direction::Forward, false, 1));
    keys.push(PosType::new(Direction::Reverse, true, 0));
    keys.push(PosType::new(Direction::Reverse, true, 1));
    keys.push(PosType::new(Direction::Reverse, false, 0));
    keys.push(PosType::new(Direction::Reverse, false, 1));
    assert(keys@ =~= report_columns());
    keys
}

/// Writes the table out as the text of the report.
pub fn write_assigned_bases(meth_positions: &PositionCounts) -> (r: String)
    requires
        meth_positions.wf(),
    ensures
        r@ == report_text(meth_positions@),
{
    let ghost table = meth_positions@;
    let keys = columns();
    let mut text = String::new();
    let mut row: usize = 0;
    assert(report_bases().take(0) == Seq::<char>::empty());
    while row < 5
        invariant
            row <= 5,
            meth_positions.wf(),
            table == meth_positions@,
            keys@ == report_columns(),
            text@ == report_rows(table, report_bases().take(row as int)),
        decreases 5 - row,
    {
        let ghost before = text@;
        let ghost base = report_bases()[row as int];
        let base_text = base_str(row);
        let base_char: char = if row == 0 {
            'A'
        } else if row == 1 {
            'C'
        } else if row == 2 {
            'G'
        } else if row == 3 {
            'T'
        } else {
            'N'
        };
        assert(base_char == base);
        text.append(base_text);
        let mut column: usize = 0;
        assert(keys@.take(0) == Seq::<PosType>::empty());
        assert(text@ =~= before + seq![base] + row_cells(table, base, keys@.take(0)));
        while column < keys.len()
            invariant
                column <= keys.len(),
                meth_positions.wf(),
                table == meth_positions@,
                base_char == base,
                text@ == before + seq![base] + row_cells(table, base, keys@.take(column as int)),
            decreases keys.len() - column,
        {
            let count = meth_positions.count(&keys[column], base_char);
            let ghost so_far = text@;
            text.append(",");
            append_decimal(&mut text, count);
            proof {
                reveal_strlit(",");
                assert(","@ =~= seq![',']);
                assert(keys@.take(column + 1).drop_last() == keys@.take(column as int));
                assert(keys@.take(column + 1).last() == keys@[column as int]);
                assert(text@ =~= before + seq![base] + row_cells(
                    table,
                    base,
                    keys@.take(column + 1),
                ));
            }
            column += 1;
        }
        text.append("\n");
        proof {
            reveal_strlit("\n");
            assert("\n"@ =~= seq!['\n']);
            assert(keys@.take(column as int) == keys@);
            assert(report_bases().take(row + 1).drop_last() == report_bases().take(row as int));
            assert(report_bases().take(row + 1).last() == base);
            assert(text@ =~= report_rows(table, report_bases().take(row + 1)));
        }
        row += 1;
    }
    assert(report_bases().take(5) == report_bases());
    text
}

} // verus!
