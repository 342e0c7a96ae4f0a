use vstd::prelude::*;
use vstd::string::StringExecFns;
use crate::algorithms::Sample;
use crate::text::{chars_of, has_word_at};

verus! {

/// `pieces` with `head` put before its first piece.
pub open spec fn prepend(head: Seq<char>, pieces: Seq<Seq<char>>) -> Seq<Seq<char>> {
    seq![head + pieces[0]] + pieces.skip(1)
}

/// The pieces of `text` between the places where `sep` stands, read from the
/// left: a text without `sep` is one piece, and two places of `sep` side by
/// side have an empty piece between them.
pub open spec fn split(text: Seq<char>, sep: Seq<char>) -> Seq<Seq<char>>
    decreases text.len(),
{
    if text.len() == 0 {
        seq![text]
    } else if sep.len() > 0 && sep.is_prefix_of(text) {
        seq![Seq::<char>::empty()] + split(text.skip(sep.len() as int), sep)
    } else {
        prepend(seq![text[0]], split(text.skip(1), sep))
    }
}

/// A line without the line feed that ends it, and without the carriage
/// return before that line feed.
pub open spec fn without_line_end(line: Seq<char>) -> Seq<char> {
    if line.len() >= 2 && line[line.len() - 2] == '\r' && line[line.len() - 1] == '\n' {
        line.take(line.len() - 2)
    } else if line.len() >= 1 && line[line.len() - 1] == '\n' {
        line.take(line.len() - 1)
    } else {
        line
    }
}

/// The rows of a line typed at the terminal, and the values of each row:
/// a semicolon with a blank behind it parts two rows, a blank two values.
/// The end of the line belongs to neither.
pub open spec fn rows_of(input: Seq<char>) -> Seq<Seq<Seq<char>>> {
    split(without_line_end(input), "; "@).map_values(|row: Seq<char>| split(row, " "@))
}

/// The texts that strings hold.
pub open spec fn texts(pieces: Seq<String>) -> Seq<Seq<char>> {
    pieces.map_values(|piece: String| piece@)
}

/// The texts that rows of strings hold.
pub open spec fn row_texts(rows: Seq<Vec<String>>) -> Seq<Seq<Seq<char>>> {
    rows.map_values(|row: Vec<String>| texts(row@))
}

/// The pieces in a row, with `sep` between each two.
pub open spec fn join(pieces: Seq<Seq<char>>, sep: Seq<char>) -> Seq<char>
    decreases pieces.len(),
{
    if pieces.len() == 0 {
        Seq::empty()
    } else if pieces.len() == 1 {
        pieces[0]
    } else {
        pieces[0] + sep + join(pieces.skip(1), sep)
    }
}

/// Splitting loses nothing: the pieces, joined again, are the text.
pub proof fn lemma_join_undoes_split(text: Seq<char>, sep: Seq<char>)
    ensures
        join(split(text, sep), sep) == text,
    decreases text.len(),
{
    if text.len() == 0 {
    } else if sep.len() > 0 && sep.is_prefix_of(text) {
        let rest = text.skip(sep.len() as int);
        let after = split(rest, sep);
        lemma_split_is_not_empty(rest, sep);
        lemma_join_undoes_split(rest, sep);
        let pieces = seq![Seq::<char>::empty()] + after;
        assert(pieces.skip(1) =~= after);
        assert(Seq::<char>::empty() + sep + rest =~= text);
    } else {
        let rest = text.skip(1);
        let after = split(rest, sep);
        lemma_split_is_not_empty(rest, sep);
        lemma_join_undoes_split(rest, sep);
        let pieces = prepend(seq![text[0]], after);
        assert(pieces.skip(1) =~= after.skip(1));
        if after.len() == 1 {
            assert(seq![text[0]] + after[0] =~= text);
        } else {
            assert((seq![text[0]] + after[0]) + sep + join(after.skip(1), sep) =~= seq![text[0]]
                + (after[0] + sep + join(after.skip(1), sep)));
            assert(seq![text[0]] + rest =~= text);
        }
    }
}

/// A text always splits into at least one piece.
pub proof fn lemma_split_is_not_empty(text: Seq<char>, sep: Seq<char>)
    ensures
        split(text, sep).len() >= 1,
    decreases text.len(),
{
    if text.len() == 0 {
    } else if sep.len() > 0 && sep.is_prefix_of(text) {
        lemma_split_is_not_empty(text.skip(sep.len() as int), sep);
    } else {
        lemma_split_is_not_empty(text.skip(1), sep);
    }
}

/// The pieces of `text` between the places where `sep` stands.
fn split_text(text: &str, sep: &str) -> (pieces: Vec<String>)
    requires
        sep@.len() > 0,
    ensures
        texts(pieces@) == split(text@, sep@),
{
    let chars: Vec<char> = chars_of(text);
    let mark: Vec<char> = chars_of(sep);
    let n: usize = chars.len();
    let m: usize = mark.len();
    let mut pieces: Vec<String> = Vec::new();
    let mut from: usize = 0;
    let mut pos: usize = 0;
    proof {
        lemma_split_is_not_empty(text@, sep@);
        assert(text@.skip(0) =~= text@);
        assert(prepend(text@.subrange(0, 0), split(text@, sep@)) =~= split(text@, sep@));
        assert(texts(pieces@) + split(text@, sep@) =~= split(text@, sep@));
    }
    while pos < n
        invariant
            chars@ == text@,
            mark@ == sep@,
            n == text@.len(),
            m == sep@.len(),
            m > 0,
            from <= pos <= n,
            split(text@, sep@) == texts(pieces@) + prepend(
                text@.subrange(from as int, pos as int),
                split(text@.skip(pos as int), sep@),
            ),
        decreases n - pos,
    {
        let ghost rest = text@.skip(pos as int);
        let ghost current = text@.subrange(from as int, pos as int);
        let ghost done = texts(pieces@);
        if has_word_at(&chars, pos, &mark) {
            let piece = String::from_str(text.substring_char(from, pos));
            pieces.push(piece);
            proof {
                let ghost after = split(rest.skip(m as int), sep@);
                lemma_split_is_not_empty(rest.skip(m as int), sep@);
                assert(rest.skip(m as int) =~= text@.skip(pos + m));
                assert(texts(pieces@) =~= done.push(current));
                assert(prepend(current, seq![Seq::<char>::empty()] + after) =~= seq![current]
                    + after);
                assert(prepend(text@.subrange(pos + m, pos + m), after) =~= after);
                assert(done + (seq![current] + after) =~= done.push(current) + after);
            }
            pos = pos + m;
            from = pos;
        } else {
            proof {
                let ghost after = split(rest.skip(1), sep@);
                lemma_split_is_not_empty(rest.skip(1), sep@);
                assert(rest.skip(1) =~= text@.skip(pos + 1));
                assert(text@.subrange(from as int, pos + 1) =~= current + seq![rest[0]]);
                let ghost inner = prepend(seq![rest[0]], after);
                assert(inner.skip(1) =~= after.skip(1));
                assert(current + inner[0] =~= (current + seq![rest[0]]) + after[0]);
                assert(prepend(current, inner) =~= prepend(current + seq![rest[0]], after));
            }
            pos = pos + 1;
        }
    }
    let piece = String::from_str(text.substring_char(from, n));
    let ghost done = texts(pieces@);
    pieces.push(piece);
    proof {
        let ghost current = text@.subrange(from as int, n as int);
        assert(text@.skip(n as int) =~= Seq::<char>::empty());
        assert(prepend(current, seq![Seq::<char>::empty()]) =~= seq![current]);
        assert(texts(pieces@) =~= done + seq![current]);
    }
    pieces
}

/// Parts a line typed at the terminal into its rows, and each row into its
/// values, in the order in which they were typed.
pub fn terminal_rows(input: &str) -> (rows: Vec<Vec<String>>)
    ensures
        row_texts(rows@) == rows_of(input@),
{
    proof {
        reveal_strlit("; ");
        reveal_strlit(" ");
    }
    let n: usize = input.unicode_len();
    let end: usize = if n >= 2 && input.get_char(n - 2) == '\r' && input.get_char(n - 1) == '\n' {
        n - 2
    } else if n >= 1 && input.get_char(n - 1) == '\n' {
        n - 1
    } else {
        n
    };
    let line: &str = input.substring_char(0, end);
    assert(line@ =~= without_line_end(input@));
    let whole: Vec<String> = split_text(line, "; ");
    let mut rows: Vec<Vec<String>> = Vec::new();
    let mut i: usize = 0;
    while i < whole.len()
        invariant
            " "@.len() > 0,
            i <= whole.len(),
            texts(whole@) == split(without_line_end(input@), "; "@),
            rows.len() == i,
            forall|j: int| 0 <= j < i ==> texts(#[trigger] rows[j]@) == split(whole[j]@, " "@),
        decreases whole.len() - i,
    {
        let row: Vec<String> = split_text(whole[i].as_str(), " ");
        rows.push(row);
        i = i + 1;
    }
    proof {
        assert forall|j: int| 0 <= j < rows.len() implies row_texts(rows@)[j] == rows_of(
            input@,
        )[j] by {
            assert(texts(whole@)[j] == whole[j]@);
        }
        assert(row_texts(rows@) =~= rows_of(input@));
    }
    rows
}

/// The rows that the records of a table make: of each record its first
/// field alone, and nothing of a record without fields.
pub open spec fn first_column_of(records: Seq<Seq<Seq<char>>>) -> Seq<Seq<Seq<char>>> {
    records.map_values(
        |record: Seq<Seq<char>>|
            if record.len() > 0 {
                seq![record[0]]
            } else {
                Seq::empty()
            },
    )
}

/// Keeps of each record its first field, which is where a table holds its
/// samples.
pub fn first_column(records: &Vec<Vec<String>>) -> (rows: Vec<Vec<String>>)
    ensures
        row_texts(rows@) == first_column_of(row_texts(records@)),
{
    let mut rows: Vec<Vec<String>> = Vec::new();
    let mut i: usize = 0;
    while i < records.len()
        invariant
            i <= records.len(),
            rows.len() == i,
            forall|j: int|
                0 <= j < i ==> texts(#[trigger] rows[j]@) == first_column_of(
                    row_texts(records@),
                )[j],
        decreases records.len() - i,
    {
        let mut row: Vec<String> = Vec::new();
        if records[i].len() > 0 {
            row.push(records[i][0].clone());
            assert(texts(row@) =~= seq![records[i as int][0]@]);
        } else {
            assert(texts(row@) =~= Seq::<Seq<char>>::empty());
        }
        assert(row_texts(records@)[i as int] == texts(records[i as int]@));
        rows.push(row);
        i = i + 1;
    }
    assert(row_texts(rows@) =~= first_column_of(row_texts(records@)));
    rows
}

/// Where a value stands that is no number.
#[derive(Clone, Copy, Debug, PartialEq, Eq, Structural)]
pub struct DataError {
    pub row: usize,
    pub column: usize,
}

/// Whether `parse` may be asked about every text.
pub open spec fn parses<P: Fn(&str) -> Option<Sample>>(parse: P) -> bool {
    forall|text: &str| #[trigger] call_requires(parse, (text,))
}

/// Whether `parse` reads texts as `value` does: whatever it returns for a
/// text is what `value` gives for it.
pub open spec fn reads<P: Fn(&str) -> Option<Sample>>(
    parse: P,
    value: spec_fn(Seq<char>) -> Option<Sample>,
) -> bool {
    forall|text: &str, r: Option<Sample>| #[trigger]
        call_ensures(parse, (text,), r) ==> r == value(text@)
}

/// Whether every value of `rows` before the one at `row` and `column` is a
/// number.
pub open spec fn numbers_before(
    value: spec_fn(Seq<char>) -> Option<Sample>,
    rows: Seq<Seq<Seq<char>>>,
    row: int,
    column: int,
) -> bool {
    forall|i: int, j: int|
        0 <= i < rows.len() && 0 <= j < rows[i].len() && (i < row || (i == row && j < column))
            ==> (#[trigger] value(rows[i][j])) is Some
}

/// Whether the first value of `rows` that is no number stands at `row` and
/// `column`.
pub open spec fn first_bad_value(
    value: spec_fn(Seq<char>) -> Option<Sample>,
    rows: Seq<Seq<Seq<char>>>,
    row: int,
    column: int,
) -> bool {
    &&& 0 <= row < rows.len()
    &&& 0 <= column < rows[row].len()
    &&& value(rows[row][column]) is None
    &&& numbers_before(value, rows, row, column)
}

/// The samples that the values of `rows` stand for, row by row.
pub open spec fn samples_of(
    value: spec_fn(Seq<char>) -> Option<Sample>,
    rows: Seq<Seq<Seq<char>>>,
) -> Seq<Sample> {
    rows.flatten().map_values(|text: Seq<char>| value(text)->Some_0)
}

/// Reads every value of every row as a sample, in order. The first value
/// that is no number ends the reading, and nothing is returned but where it
/// stands.
pub fn parse_rows<P: Fn(&str) -> Option<Sample>>(rows: &Vec<Vec<String>>, parse: P) -> (r: Result<
    Vec<Sample>,
    DataError,
>)
    requires
        parses(parse),
    ensures
        forall|value: spec_fn(Seq<char>) -> Option<Sample>| #[trigger]
            reads(parse, value) ==> match r {
                Ok(samples) => {
                    &&& numbers_before(value, row_texts(rows@), rows.len() as int, 0)
                    &&& samples@ == samples_of(value, row_texts(rows@))
                },
                Err(e) => first_bad_value(value, row_texts(rows@), e.row as int, e.column as int),
            },
{
    let mut samples: Vec<Sample> = Vec::new();
    let ghost all = row_texts(rows@);
    let mut i: usize = 0;
    assert(all.take(0).flatten() =~= Seq::<Seq<char>>::empty());
    while i < rows.len()
        invariant
            i <= rows.len(),
            all == row_texts(rows@),
            parses(parse),
            forall|value: spec_fn(Seq<char>) -> Option<Sample>| #[trigger]
                reads(parse, value) ==> {
                    &&& numbers_before(value, all, i as int, 0)
                    &&& samples@ == samples_of(value, all.take(i as int))
                },
        decreases rows.len() - i,
    {
        let row: &Vec<String> = &rows[i];
        let ghost done = samples@;
        let mut j: usize = 0;
        assert(all[i as int] == texts(row@));
        while j < row.len()
            invariant
                i < rows.len(),
                j <= row.len(),
                all == row_texts(rows@),
                all[i as int] == texts(row@),
                parses(parse),
                forall|value: spec_fn(Seq<char>) -> Option<Sample>| #[trigger]
                    reads(parse, value) ==> {
                        &&& numbers_before(value, all, i as int, j as int)
                        &&& samples@ == samples_of(value, all.take(i as int)) + texts(row@).take(
                            j as int,
                        ).map_values(|text: Seq<char>| value(text)->Some_0)
                    },
            decreases row.len() - j,
        {
            let ghost so_far = samples@;
            match parse(row[j].as_str()) {
                Some(sample) => {
                    samples.push(sample);
                    proof {
                        assert forall|value: spec_fn(Seq<char>) -> Option<Sample>| #[trigger]
                            reads(parse, value) implies {
                            &&& numbers_before(value, all, i as int, j + 1)
                            &&& samples@ == samples_of(value, all.take(i as int)) + texts(
                                row@,
                            ).take(j + 1).map_values(|text: Seq<char>| value(text)->Some_0)
                        } by {
                            assert(value(row[j as int]@) == Some(sample));
                            assert(numbers_before(value, all, i as int, j as int));
                            assert(all[i as int][j as int] == row[j as int]@);
                            assert(texts(row@).take(j + 1).map_values(
                                |text: Seq<char>| value(text)->Some_0,
                            ) =~= texts(row@).take(j as int).map_values(
                                |text: Seq<char>| value(text)->Some_0,
                            ).push(sample));
                            assert(samples@ =~= samples_of(value, all.take(i as int)) + texts(
                                row@,
                            ).take(j + 1).map_values(|text: Seq<char>| value(text)->Some_0));
                        }
                    }
                },
                None => {
                    proof {
                        assert forall|value: spec_fn(Seq<char>) -> Option<Sample>| #[trigger]
                            reads(parse, value) implies first_bad_value(
                            value,
                            all,
                            i as int,
                            j as int,
                        ) by {
                            assert(value(row[j as int]@) is None);
                            assert(all[i as int][j as int] == row[j as int]@);
                        }
                    }
                    return Err(DataError { row: i, column: j });
                },
            }
            j = j + 1;
        }
        proof {
            assert forall|value: spec_fn(Seq<char>) -> Option<Sample>| #[trigger]
                reads(parse, value) implies {
                &&& numbers_before(value, all, i + 1, 0)
                &&& samples@ == samples_of(value, all.take(i + 1))
            } by {
                assert(numbers_before(value, all, i as int, row.len() as int));
                assert(texts(row@).take(row.len() as int) =~= texts(row@));
                assert(all.take(i + 1) =~= all.take(i as int).push(all[i as int]));
                all.take(i as int).lemma_flatten_push(all[i as int]);
                assert(samples_of(value, all.take(i + 1)) =~= samples_of(
                    value,
                    all.take(i as int),
                ) + texts(row@).map_values(|text: Seq<char>| value(text)->Some_0));
            }
        }
        i = i + 1;
    }
    proof {
        assert(all.take(rows.len() as int) =~= all);
    }
    Ok(samples)
}

} // verus!
