//! What a hex dump says of the bytes it shows.
use vstd::prelude::*;

use crate::error::Error;
use crate::render::{
    columns, dump, rendered, row_address, row_count, row_of, row_text, shown, shown_row,
    EntryEncodingArg,
};
use crate::text::reading::{lemma_number_read, lemma_zero_filled, number_read, value_of};
use crate::text::{hexadecimal, number_text, zero_filled};

verus! {

/// Where the two digits of byte `i` of a row stand among its columns: three
/// characters for each byte, and one more between the eighth and the ninth.
pub open spec fn column_of(i: int) -> int {
    if i < 8 {
        3 * i
    } else {
        3 * i + 1
    }
}

/// The byte that two hexadecimal digits at `at` stand for, if they are digits.
pub open spec fn byte_at(text: Seq<char>, at: int) -> Option<int> {
    match (value_of(text[at]), value_of(text[at + 1])) {
        (Some(high), Some(low)) => Some((16 * high + low) as int),
        _ => None,
    }
}

proof fn lemma_two_digits(b: u8)
    ensures
        ({
            let s = zero_filled(hexadecimal(b as nat), 2);
            s.len() == 2 && byte_at(s, 0) == Some(b as int)
        }),
{
    let h = hexadecimal(b as nat);
    let s = zero_filled(h, 2);
    lemma_number_read(b as nat, 16);
    lemma_zero_filled(h, 2);
    if b < 16 {
        assert(h.len() == 1);
    } else {
        assert(number_text(b as nat / 16, 16).len() == 1);
        assert(h.len() == 2);
    }
    let t = s.drop_last();
    assert(t.drop_last() =~= Seq::<char>::empty());
    assert(number_read(t.drop_last(), 16) == Some(0nat));
    assert(t.last() == s[0]);
    assert(s.last() == s[1]);
    assert(number_read(t, 16) is Some);
}

/// The columns of a row can be read back: at the place of each byte stand its
/// two digits, and every other character is a blank.
pub proof fn lemma_columns_read(row: Seq<u8>, n: nat)
    requires
        row.len() <= 16,
        n <= 16,
    ensures
        columns(row, n).len() == if n < 8 {
            3 * n
        } else {
            3 * n + 1
        },
        forall|i: int|
            0 <= i < n && i < row.len() ==> byte_at(columns(row, n), #[trigger] column_of(i))
                == Some(row[i] as int),
        forall|i: int| 0 <= i < n ==> columns(row, n)[#[trigger] column_of(i) + 2] == ' ',
        forall|i: int|
            row.len() <= i < n ==> columns(row, n)[#[trigger] column_of(i)] == ' ' && columns(
                row,
                n,
            )[column_of(i) + 1] == ' ',
        n >= 8 ==> columns(row, n)[24] == ' ',
    decreases n,
{
    reveal_strlit(" ");
    reveal_strlit("   ");
    if n > 0 {
        let m = (n - 1) as nat;
        lemma_columns_read(row, m);
        let before = columns(row, m);
        let now = columns(row, n);
        if m < row.len() {
            lemma_two_digits(row[m as int]);
        }
        let cell = if m < row.len() {
            zero_filled(hexadecimal(row[m as int] as nat), 2) + " "@
        } else {
            "   "@
        };
        let gap = if m == 7 {
            " "@
        } else {
            Seq::empty()
        };
        assert(now == before + cell + gap);
        assert(cell.len() == 3);
        assert(before.len() == column_of(m as int));
        assert forall|k: int| 0 <= k < before.len() implies now[k] == before[k] by {}
        assert forall|k: int| 0 <= k < 3 implies now[column_of(m as int) + k] == #[trigger] cell[k] by {}
        assert forall|i: int| 0 <= i < n && i < row.len() implies byte_at(
            now,
            #[trigger] column_of(i),
        ) == Some(row[i] as int) by {
            if i < m {
                assert(byte_at(before, column_of(i)) == Some(row[i] as int));
                assert(column_of(i) + 1 < before.len());
            } else {
                let two = zero_filled(hexadecimal(row[m as int] as nat), 2);
                assert(cell[0] == two[0] && cell[1] == two[1]);
            }
        }
        assert forall|i: int| 0 <= i < n implies now[#[trigger] column_of(i) + 2] == ' ' by {
            if i < m {
                assert(before[column_of(i) + 2] == ' ');
            } else {
                assert(cell[2] == ' ');
            }
        }
        assert forall|i: int| row.len() <= i < n implies now[#[trigger] column_of(i)] == ' '
            && now[column_of(i) + 1] == ' ' by {
            if i < m {
                assert(before[column_of(i)] == ' ');
            } else {
                assert(cell[0] == ' ' && cell[1] == ' ');
            }
        }
        if n >= 9 {
            assert(now[24] == before[24]);
        } else if n == 8 {
            assert(gap[0] == ' ');
            assert(now[24] == gap[0]);
        }
    }
}

/// A byte is shown as itself where it is a visible ASCII character or a space;
/// any other is shown as a dot.
pub proof fn lemma_shown(b: u8)
    ensures
        ' ' as u32 <= b <= '~' as u32 ==> shown(b) as u32 == b,
        b < ' ' as u32 || b > '~' as u32 ==> shown(b) == '.',
{
}

/// The text of a row, part by part: the address in at least eight hexadecimal
/// digits, two blanks, the columns, a bar, and each byte as a character.
pub proof fn lemma_row_read(address: u64, row: Seq<u8>)
    requires
        row.len() <= 16,
    ensures
        ({
            let text = row_text(address, row);
            let a = text.len() - row.len() - 54;
            &&& a >= 8
            &&& a > 8 ==> text[0] != '0'
            &&& number_read(text.take(a), 16) == Some(address as nat)
            &&& text[a] == ' ' && text[a + 1] == ' '
            &&& forall|i: int|
                0 <= i < row.len() ==> byte_at(text, a + 2 + #[trigger] column_of(i)) == Some(
                    row[i] as int,
                )
            &&& text[a + 51] == ' ' && text[a + 52] == '|' && text[a + 53] == ' '
            &&& forall|i: int| 0 <= i < row.len() ==> #[trigger] text[a + 54 + i] == shown(row[i])
        }),
{
    reveal_strlit("  ");
    reveal_strlit(" | ");
    let text = row_text(address, row);
    let h = hexadecimal(address as nat);
    let head = zero_filled(h, 8);
    lemma_number_read(address as nat, 16);
    lemma_zero_filled(h, 8);
    lemma_columns_read(row, 16);
    let a = head.len() as int;
    let cells = columns(row, 16);
    assert(text == head + "  "@ + cells + " | "@ + shown_row(row));
    assert(text.len() == a + 2 + 49 + 3 + row.len());
    assert(text.take(a) =~= head);
    if a > 8 {
        assert(head.skip(0) =~= head);
        assert(text[0] == head[0]);
    }
    assert forall|k: int| 0 <= k < 49 implies text[a + 2 + k] == #[trigger] cells[k] by {}
    assert forall|i: int| 0 <= i < row.len() implies byte_at(text, a + 2 + #[trigger] column_of(i))
        == Some(row[i] as int) by {
        assert(byte_at(cells, column_of(i)) == Some(row[i] as int));
        assert(text[a + 2 + column_of(i)] == cells[column_of(i)]);
        assert(text[a + 2 + (column_of(i) + 1)] == cells[column_of(i) + 1]);
    }
    assert(text[a + 51] == " | "@[0] && text[a + 52] == " | "@[1] && text[a + 53] == " | "@[2]);
    assert forall|i: int| 0 <= i < row.len() implies #[trigger] text[a + 54 + i] == shown(row[i]) by {
        assert(text[a + 54 + i] == shown_row(row)[i]);
    }
}

/// Rows of equal length at one address read alike only where their bytes are
/// equal.
pub proof fn lemma_rows_apart(address: u64, a: Seq<u8>, b: Seq<u8>)
    requires
        a.len() == b.len() <= 16,
        row_text(address, a) == row_text(address, b),
    ensures
        a == b,
{
    lemma_row_read(address, a);
    lemma_row_read(address, b);
    let text = row_text(address, a);
    let at = text.len() - a.len() - 54;
    assert forall|i: int| 0 <= i < a.len() implies a[i] == b[i] by {
        assert(byte_at(text, at + 2 + column_of(i)) == Some(a[i] as int));
        assert(byte_at(text, at + 2 + column_of(i)) == Some(b[i] as int));
    }
    assert(a =~= b);
}

/// Texts with a line break between them, taken apart from the front.
pub open spec fn on_lines(rows: Seq<Seq<char>>) -> Seq<char>
    decreases rows.len(),
{
    if rows.len() == 0 {
        Seq::empty()
    } else if rows.len() == 1 {
        rows[0]
    } else {
        rows[0] + seq!['\n'] + on_lines(rows.skip(1))
    }
}

proof fn lemma_on_lines_push(rows: Seq<Seq<char>>, row: Seq<char>)
    requires
        rows.len() > 0,
    ensures
        on_lines(rows.push(row)) == on_lines(rows) + seq!['\n'] + row,
    decreases rows.len(),
{
    let more = rows.push(row);
    if rows.len() == 1 {
        assert(more.skip(1) =~= seq![row]);
        assert(on_lines(more.skip(1)) == row);
        assert(on_lines(more) =~= on_lines(rows) + seq!['\n'] + row);
    } else {
        assert(more.skip(1) =~= rows.skip(1).push(row));
        lemma_on_lines_push(rows.skip(1), row);
        assert(on_lines(more) =~= on_lines(rows) + seq!['\n'] + row);
    }
}

/// The rows of a dump: sixteen bytes each, the last one what is left, and each
/// under the address of its first byte.
pub open spec fn dump_rows(data: Seq<u8>, base: u64) -> Seq<Seq<char>> {
    Seq::new(
        row_count(data.len() as int),
        |i: int|
            row_text(
                if base + 16 * i > u64::MAX {
                    u64::MAX
                } else {
                    (base + 16 * i) as u64
                },
                data.subrange(
                    16 * i,
                    if 16 * i + 16 < data.len() {
                        16 * i + 16
                    } else {
                        data.len() as int
                    },
                ),
            ),
    )
}

proof fn lemma_dump_prefix(data: Seq<u8>, base: u64, n: nat)
    requires
        n <= row_count(data.len() as int),
    ensures
        dump(data, base, n) == on_lines(dump_rows(data, base).take(n as int)),
    decreases n,
{
    let rows = dump_rows(data, base);
    reveal_strlit("\n");
    if n > 0 {
        let m = (n - 1) as nat;
        lemma_dump_prefix(data, base, m);
        assert(rows.take(n as int) =~= rows.take(m as int).push(rows[m as int]));
        assert(row_text(row_address(base, m as int), row_of(data, m as int)) == rows[m as int]) by {
            assert(16 * m == m * 16) by (nonlinear_arith);
        }
        assert("\n"@ =~= seq!['\n']);
        if n == 1 {
            assert(rows.take(1) =~= seq![rows[0]]);
        } else {
            lemma_on_lines_push(rows.take(m as int), rows[m as int]);
        }
    }
}

/// A hex dump is its rows, one on each line; there are as few as hold all bytes,
/// and all but the last are full.
pub proof fn lemma_dump_lines(data: Seq<u8>, base: u64)
    ensures
        rendered(data, base, EntryEncodingArg::Hex) == Ok::<Seq<char>, Error>(
            on_lines(dump_rows(data, base)),
        ),
        16 * dump_rows(data, base).len() >= data.len(),
        16 * dump_rows(data, base).len() < data.len() + 16,
{
    let n = row_count(data.len() as int);
    lemma_dump_prefix(data, base, n);
    assert(dump_rows(data, base).take(n as int) =~= dump_rows(data, base));
}

/// How long a row is: so many bytes at such an address.
proof fn lemma_row_length(address: u64, a: Seq<u8>, b: Seq<u8>)
    requires
        a.len() == b.len() <= 16,
    ensures
        row_text(address, a).len() == row_text(address, b).len(),
{
    lemma_columns_read(a, 16);
    lemma_columns_read(b, 16);
}

proof fn lemma_lines_apart(a: Seq<Seq<char>>, b: Seq<Seq<char>>, i: int)
    requires
        a.len() == b.len(),
        0 <= i < a.len(),
        forall|j: int| 0 <= j < a.len() ==> (#[trigger] a[j]).len() == b[j].len(),
        on_lines(a) == on_lines(b),
    ensures
        a[i] == b[i],
    decreases a.len(),
{
    let s = on_lines(a);
    let n = a[0].len() as int;
    assert(s.take(n) =~= a[0]);
    assert(s.take(n) =~= b[0]);
    if i > 0 {
        let x = a.skip(1);
        let y = b.skip(1);
        assert(s.skip(n + 1) =~= on_lines(x));
        assert(s.skip(n + 1) =~= on_lines(y));
        assert forall|j: int| 0 <= j < x.len() implies (#[trigger] x[j]).len() == y[j].len() by {
            assert(x[j] == a[j + 1] && y[j] == b[j + 1]);
        }
        lemma_lines_apart(x, y, i - 1);
        assert(x[i - 1] == a[i] && y[i - 1] == b[i]);
    }
}

/// A dump loses nothing: data of equal length with equal dumps are equal.
pub proof fn lemma_dumps_apart(a: Seq<u8>, b: Seq<u8>, base: u64)
    requires
        a.len() == b.len(),
        rendered(a, base, EntryEncodingArg::Hex) == rendered(b, base, EntryEncodingArg::Hex),
    ensures
        a == b,
{
    lemma_dump_lines(a, base);
    lemma_dump_lines(b, base);
    let x = dump_rows(a, base);
    let y = dump_rows(b, base);
    assert forall|j: int| 0 <= j < x.len() implies (#[trigger] x[j]).len() == y[j].len() by {
        let address = row_address(base, j);
        assert(16 * j == j * 16) by (nonlinear_arith);
        assert(x[j] == row_text(address, row_of(a, j)));
        assert(y[j] == row_text(address, row_of(b, j)));
        lemma_row_length(address, row_of(a, j), row_of(b, j));
    }
    assert forall|i: int| 0 <= i < a.len() implies a[i] == b[i] by {
        let j = i / 16;
        assert(16 * j == j * 16) by (nonlinear_arith);
        lemma_lines_apart(x, y, j);
        let address = row_address(base, j);
        assert(x[j] == row_text(address, row_of(a, j)));
        assert(y[j] == row_text(address, row_of(b, j)));
        lemma_rows_apart(address, row_of(a, j), row_of(b, j));
        assert(row_of(a, j)[i - 16 * j] == a[i]);
        assert(row_of(b, j)[i - 16 * j] == b[i]);
    }
    assert(a =~= b);
}

} // verus!
