//! The order list as a sheet of cells: where its columns stand, and the
//! orders that it holds.

use crate::structs::order::Order;
use crate::text::{
    all_digits, contains, decimal_value, digits_start, is_digit, is_digit_char, occurs,
    parse_decimal, skip_plus, slice_chars, strip,
    stripped, string_from_chars, to_chars,
};
use vstd::prelude::*;
use vstd::string::*;

verus! {

/// What a cell of the sheet holds, as far as the order list is read: a
/// whole number, a text, or nothing of either kind.
#[derive(Debug, Clone)]
pub enum Cell {
    Empty,
    Number(u64),
    Text(String),
}

/// Why no orders could be read from the sheet.
#[derive(Debug, Clone, Copy, PartialEq, Eq, Structural)]
pub enum OrderListError {
    /// No cell names the column of the codes.
    KeywordNotFound,
    /// No cell of the heading row names the column sought there.
    RowKeywordNotFound,
    /// The row has a code and no amount.
    InvalidAmount(usize),
}

/// An order as contracts see it.
pub struct OrderLine {
    pub code: u64,
    pub amount: u64,
    pub description: Seq<char>,
}

/// The order lines of a sequence of orders.
pub open spec fn order_lines(v: Seq<Order>) -> Seq<OrderLine> {
    v.map_values(
        |o: Order| OrderLine { code: o.code, amount: o.amount, description: o.description@ },
    )
}

/// The texts of a sequence of strings.
pub open spec fn texts(v: Seq<String>) -> Seq<Seq<char>> {
    v.map_values(|s: String| s@)
}

/// A text in lower case, as `str::to_lowercase` gives it.
pub uninterp spec fn lowercase(s: Seq<char>) -> Seq<char>;

/// `str::to_lowercase`: the text with every character in its lower-case
/// form.
#[verifier::external_body]
fn lowered(s: &str) -> (r: String)
    ensures
        r@ == lowercase(s@),
{
    s.to_lowercase()
}

/// The number that a text writes: its digits, blanks at the ends and a
/// plus sign before them apart, where there is nothing else and the number
/// fits in 64 bits.
pub open spec fn number_in(s: Seq<char>) -> Option<u64> {
    let t = stripped(s);
    let digits = t.subrange(digits_start(t, 0), t.len() as int);
    if digits.len() > 0 && all_digits(digits) && decimal_value(digits) <= u64::MAX {
        Some(decimal_value(digits) as u64)
    } else {
        None
    }
}

/// The number that a cell holds or writes.
pub open spec fn cell_number(cell: Option<Cell>) -> Option<u64> {
    match cell {
        Some(Cell::Number(n)) => Some(n),
        Some(Cell::Text(s)) => number_in(s@),
        _ => None,
    }
}

/// The text of a cell without the blanks at its ends; empty for a cell
/// that holds no text.
pub open spec fn cell_text(cell: Option<Cell>) -> Seq<char> {
    match cell {
        Some(Cell::Text(s)) => stripped(s@),
        _ => Seq::empty(),
    }
}

/// The cell in the given row and column, where the sheet has one.
pub open spec fn cell_at(sheet: Seq<Vec<Cell>>, row: int, col: int) -> Option<Cell> {
    if 0 <= row < sheet.len() && 0 <= col < sheet[row]@.len() {
        Some(sheet[row]@[col])
    } else {
        None
    }
}

/// The text holds the keyword, case ignored.
pub open spec fn holds_keyword(text: Seq<char>, keyword: Seq<char>) -> bool {
    lowercase(keyword).len() == 0 || occurs(lowercase(text), lowercase(keyword))
}

/// The cell holds a text with one of the keywords in it.
pub open spec fn names_any(cell: Option<Cell>, keywords: Seq<Seq<char>>) -> bool {
    match cell {
        Some(Cell::Text(s)) => exists|k: int|
            0 <= k < keywords.len() && holds_keyword(s@, #[trigger] keywords[k]),
        _ => false,
    }
}

/// The first column of the row, from `col` on and below `max_cols`, whose
/// cell names a keyword.
pub open spec fn keyword_col(
    sheet: Seq<Vec<Cell>>,
    row: int,
    col: int,
    max_cols: int,
    keywords: Seq<Seq<char>>,
) -> Option<int>
    decreases max_cols - col,
{
    if col < 0 || col >= max_cols {
        None
    } else if names_any(cell_at(sheet, row, col), keywords) {
        Some(col)
    } else {
        keyword_col(sheet, row, col + 1, max_cols, keywords)
    }
}

/// The first cell that names a keyword, the rows from `row` on and below
/// `max_rows` taken one after the other, each from its first column up to
/// `max_cols`.
pub open spec fn keyword_cell(
    sheet: Seq<Vec<Cell>>,
    row: int,
    max_rows: int,
    max_cols: int,
    keywords: Seq<Seq<char>>,
) -> Option<(int, int)>
    decreases max_rows - row,
{
    if row < 0 || row >= max_rows {
        None
    } else {
        match keyword_col(sheet, row, 0, max_cols, keywords) {
            Some(col) => Some((row, col)),
            None => keyword_cell(sheet, row + 1, max_rows, max_cols, keywords),
        }
    }
}

/// Where the orders of a sheet stand: the columns of the code, of the
/// amount and of the description.
pub struct Columns {
    pub code: usize,
    pub amount: usize,
    pub description: usize,
}

/// The orders from `row` on. A row with a code is an order, and must
/// have an amount; rows without a code are passed over until the first
/// order is found, and end the list after it.
pub open spec fn orders_from(sheet: Seq<Vec<Cell>>, columns: Columns, row: int, started: bool) -> Result<
    Seq<OrderLine>,
    OrderListError,
>
    decreases sheet.len() - row,
{
    if row < 0 || row >= sheet.len() {
        Ok(Seq::empty())
    } else {
        match cell_number(cell_at(sheet, row, columns.code as int)) {
            Some(code) => match cell_number(cell_at(sheet, row, columns.amount as int)) {
                None => Err(OrderListError::InvalidAmount(row as usize)),
                Some(amount) => behind(
                    seq![
                        OrderLine {
                            code,
                            amount,
                            description: cell_text(
                                cell_at(sheet, row, columns.description as int),
                            ),
                        },
                    ],
                    orders_from(sheet, columns, row + 1, true),
                ),
            },
            None => if started {
                Ok(Seq::empty())
            } else {
                orders_from(sheet, columns, row + 1, false)
            },
        }
    }
}

/// What was read already, and what reading the rest gives.
pub open spec fn behind(read: Seq<OrderLine>, rest: Result<Seq<OrderLine>, OrderListError>) -> Result<
    Seq<OrderLine>,
    OrderListError,
> {
    match rest {
        Ok(more) => Ok(read + more),
        Err(e) => Err(e),
    }
}

/// The keywords that name the column of the codes.
pub open spec fn code_keywords() -> Seq<Seq<char>> {
    seq!["БГ СТИКЕР"@, "Френски код"@, "French code"@, "Fr Code"@]
}

/// The keywords that name the column of the amounts, with the one that
/// the user has set behind them.
pub open spec fn amount_keywords(extra: Option<Seq<char>>) -> Seq<Seq<char>> {
    seq!["Поръчка"@, "Брой"@, "Order"@, "Total"@] + (match extra {
        Some(k) => seq![k],
        None => Seq::empty(),
    })
}

/// The keywords that name the column of the descriptions.
pub open spec fn description_keywords() -> Seq<Seq<char>> {
    seq!["Описание"@, "Description"@, "Product"@]
}

/// The orders of a sheet. The heading is the first cell that names the
/// codes, in the first 40 rows and 6 columns; the amount and the
/// description are named in its row, in the first 10 columns; the orders
/// follow below the heading.
pub open spec fn orders_in(sheet: Seq<Vec<Cell>>, extra: Option<Seq<char>>) -> Result<
    Seq<OrderLine>,
    OrderListError,
> {
    match keyword_cell(sheet, 0, 40, 6, code_keywords()) {
        None => Err(OrderListError::KeywordNotFound),
        Some(heading) => match keyword_col(sheet, heading.0, 0, 10, amount_keywords(extra)) {
            None => Err(OrderListError::RowKeywordNotFound),
            Some(amount) => match keyword_col(sheet, heading.0, 0, 10, description_keywords()) {
                None => Err(OrderListError::RowKeywordNotFound),
                Some(description) => orders_from(
                    sheet,
                    Columns {
                        code: heading.1 as usize,
                        amount: amount as usize,
                        description: description as usize,
                    },
                    heading.0 + 1,
                    false,
                ),
            },
        },
    }
}

/// Whether every character is a digit.
pub fn only_digits(s: &Vec<char>) -> (b: bool)
    ensures
        b == all_digits(s@),
{
    let mut i: usize = 0;
    while i < s.len()
        invariant
            i <= s@.len(),
            forall|k: int| 0 <= k < i ==> is_digit(#[trigger] s@[k]),
        decreases s@.len() - i,
    {
        if !is_digit_char(s[i]) {
            return false;
        }
        i += 1;
    }
    true
}

/// The number that a text writes.
pub fn number_of(text: &str) -> (r: Option<u64>)
    ensures
        r == number_in(text@),
{
    let t = strip(&to_chars(text));
    let digits = slice_chars(&t, skip_plus(&t, 0), t.len());
    if digits.len() > 0 && only_digits(&digits) {
        parse_decimal(&digits, u64::MAX)
    } else {
        None
    }
}

/// The cell in the given row and column, where the sheet has one.
pub fn get_cell(sheet: &Vec<Vec<Cell>>, row: usize, col: usize) -> (r: Option<&Cell>)
    ensures
        match r {
            Some(c) => cell_at(sheet@, row as int, col as int) == Some(*c),
            None => cell_at(sheet@, row as int, col as int) is None,
        },
{
    if row < sheet.len() && col < sheet[row].len() {
        Some(&sheet[row][col])
    } else {
        None
    }
}

/// The number that a cell holds or writes.
pub fn get_u64_from_cell(cell: Option<&Cell>) -> (r: Option<u64>)
    ensures
        r == cell_number(
            match cell {
                Some(c) => Some(*c),
                None => None,
            },
        ),
{
    match cell {
        Some(Cell::Number(n)) => Some(*n),
        Some(Cell::Text(s)) => number_of(s.as_str()),
        _ => None,
    }
}

/// The text of a cell without the blanks at its ends.
pub fn get_text_from_cell(cell: Option<&Cell>) -> (r: String)
    ensures
        r@ == cell_text(
            match cell {
                Some(c) => Some(*c),
                None => None,
            },
        ),
{
    match cell {
        Some(Cell::Text(s)) => string_from_chars(&strip(&to_chars(s.as_str()))),
        _ => String::new(),
    }
}

/// Whether the text holds the keyword, case ignored.
pub fn text_holds_keyword(text: &str, keyword: &str) -> (b: bool)
    ensures
        b == holds_keyword(text@, keyword@),
{
    let low = lowered(keyword);
    let k = to_chars(low.as_str());
    if k.len() == 0 {
        return true;
    }
    let lowtext = lowered(text);
    contains(&to_chars(lowtext.as_str()), &k)
}

/// Whether the cell holds a text with one of the keywords in it.
pub fn cell_names_any(cell: Option<&Cell>, keywords: &Vec<String>) -> (b: bool)
    ensures
        b == names_any(
            match cell {
                Some(c) => Some(*c),
                None => None,
            },
            texts(keywords@),
        ),
{
    match cell {
        Some(Cell::Text(s)) => {
            let mut k: usize = 0;
            while k < keywords.len()
                invariant
                    k <= keywords@.len(),
                    cell matches Some(c) && *c == Cell::Text(*s),
                    forall|j: int|
                        0 <= j < k ==> !holds_keyword(s@, #[trigger] texts(keywords@)[j]),
                decreases keywords@.len() - k,
            {
                if text_holds_keyword(s.as_str(), keywords[k].as_str()) {
                    assert(texts(keywords@).len() == keywords@.len());
                    assert(holds_keyword(s@, texts(keywords@)[k as int]));
                    return true;
                }
                k += 1;
            }
            false
        },
        _ => false,
    }
}

/// The first column of the row, below `max_cols`, whose cell names a
/// keyword.
pub fn find_row_keyword_in_same_row(
    sheet: &Vec<Vec<Cell>>,
    row: usize,
    max_cols: usize,
    keywords: &Vec<String>,
) -> (r: Result<(usize, usize), OrderListError>)
    ensures
        match r {
            Ok(at) => at.0 == row && keyword_col(
                sheet@,
                row as int,
                0,
                max_cols as int,
                texts(keywords@),
            ) == Some(at.1 as int),
            Err(e) => e == OrderListError::RowKeywordNotFound && keyword_col(
                sheet@,
                row as int,
                0,
                max_cols as int,
                texts(keywords@),
            ) is None,
        },
{
    let mut col: usize = 0;
    while col < max_cols
        invariant
            col <= max_cols,
            keyword_col(sheet@, row as int, 0, max_cols as int, texts(keywords@)) == keyword_col(
                sheet@,
                row as int,
                col as int,
                max_cols as int,
                texts(keywords@),
            ),
        decreases max_cols - col,
    {
        if cell_names_any(get_cell(sheet, row, col), keywords) {
            return Ok((row, col));
        }
        col += 1;
    }
    Err(OrderListError::RowKeywordNotFound)
}

/// The first cell that names a keyword, in the first `max_rows` rows and
/// `max_cols` columns, row by row.
pub fn find_keyword_cell(
    sheet: &Vec<Vec<Cell>>,
    max_cols: usize,
    max_rows: usize,
    keywords: &Vec<String>,
) -> (r: Result<(usize, usize), OrderListError>)
    ensures
        match r {
            Ok(at) => keyword_cell(sheet@, 0, max_rows as int, max_cols as int, texts(keywords@))
                == Some((at.0 as int, at.1 as int)),
            Err(e) => e == OrderListError::KeywordNotFound && keyword_cell(
                sheet@,
                0,
                max_rows as int,
                max_cols as int,
                texts(keywords@),
            ) is None,
        },
{
    let mut row: usize = 0;
    while row < max_rows
        invariant
            row <= max_rows,
            keyword_cell(sheet@, 0, max_rows as int, max_cols as int, texts(keywords@))
                == keyword_cell(
                sheet@,
                row as int,
                max_rows as int,
                max_cols as int,
                texts(keywords@),
            ),
        decreases max_rows - row,
    {
        match find_row_keyword_in_same_row(sheet, row, max_cols, keywords) {
            Ok(at) => {
                return Ok(at);
            },
            Err(_) => {},
        }
        row += 1;
    }
    Err(OrderListError::KeywordNotFound)
}

/// The orders below the heading row.
pub fn extract_orders(
    sheet: &Vec<Vec<Cell>>,
    col_code: usize,
    col_amount: usize,
    col_description: usize,
    start_row: usize,
) -> (r: Result<Vec<Order>, OrderListError>)
    ensures
        match r {
            Ok(v) => orders_from(
                sheet@,
                Columns { code: col_code, amount: col_amount, description: col_description },
                start_row + 1,
                false,
            ) == Ok::<Seq<OrderLine>, OrderListError>(order_lines(v@)),
            Err(e) => orders_from(
                sheet@,
                Columns { code: col_code, amount: col_amount, description: col_description },
                start_row + 1,
                false,
            ) == Err::<Seq<OrderLine>, OrderListError>(e),
        },
{
    let ghost columns = Columns { code: col_code, amount: col_amount, description: col_description };
    let mut result: Vec<Order> = Vec::new();
    let mut started = false;
    assert(order_lines(result@) =~= Seq::<OrderLine>::empty());
    if start_row >= sheet.len() {
        return Ok(result);
    }
    let mut row: usize = start_row + 1;
    assert(behind(Seq::empty(), orders_from(sheet@, columns, row as int, false)) == orders_from(
        sheet@,
        columns,
        row as int,
        false,
    )) by {
        match orders_from(sheet@, columns, row as int, false) {
            Ok(more) => {
                assert(Seq::<OrderLine>::empty() + more =~= more);
            },
            Err(_) => {},
        }
    }
    while row < sheet.len()
        invariant
            start_row < row <= sheet@.len(),
            columns == (Columns {
                code: col_code,
                amount: col_amount,
                description: col_description,
            }),
            behind(order_lines(result@), orders_from(sheet@, columns, row as int, started))
                == orders_from(sheet@, columns, start_row + 1, false),
        decreases sheet@.len() - row,
    {
        match get_u64_from_cell(get_cell(sheet, row, col_code)) {
            Some(code) => {
                started = true;
                let amount: u64 = match get_u64_from_cell(get_cell(sheet, row, col_amount)) {
                    Some(amount) => amount,
                    None => {
                        return Err(OrderListError::InvalidAmount(row));
                    },
                };
                let description = get_text_from_cell(get_cell(sheet, row, col_description));
                let ghost read = order_lines(result@);
                let ghost line = OrderLine { code, amount, description: description@ };
                result.push(Order { code, amount, description });
                proof {
                    assert(order_lines(result@) =~= read + seq![line]);
                    match orders_from(sheet@, columns, row + 1, true) {
                        Ok(more) => {
                            assert(read + (seq![line] + more) =~= (read + seq![line]) + more);
                        },
                        Err(_) => {},
                    }
                }
            },
            None => {
                if started {
                    assert(order_lines(result@) + Seq::<OrderLine>::empty() =~= order_lines(
                        result@,
                    ));
                    return Ok(result);
                }
            },
        }
        row += 1;
    }
    assert(order_lines(result@) + Seq::<OrderLine>::empty() =~= order_lines(result@));
    Ok(result)
}

/// The orders of a sheet, with the columns found by their headings.
/// `order_amount_column_name`, where it is given, is one more name for the
/// column of the amounts.
pub fn parse_orders(sheet: &Vec<Vec<Cell>>, order_amount_column_name: Option<&str>) -> (r: Result<
    Vec<Order>,
    OrderListError,
>)
    ensures
        match r {
            Ok(v) => orders_in(
                sheet@,
                match order_amount_column_name {
                    Some(k) => Some(k@),
                    None => None,
                },
            ) == Ok::<Seq<OrderLine>, OrderListError>(order_lines(v@)),
            Err(e) => orders_in(
                sheet@,
                match order_amount_column_name {
                    Some(k) => Some(k@),
                    None => None,
                },
            ) == Err::<Seq<OrderLine>, OrderListError>(e),
        },
{
    let mut codes: Vec<String> = Vec::new();
    codes.push("БГ СТИКЕР".to_owned());
    codes.push("Френски код".to_owned());
    codes.push("French code".to_owned());
    codes.push("Fr Code".to_owned());
    assert(texts(codes@) =~= code_keywords());
    let mut amounts: Vec<String> = Vec::new();
    amounts.push("Поръчка".to_owned());
    amounts.push("Брой".to_owned());
    amounts.push("Order".to_owned());
    amounts.push("Total".to_owned());
    match order_amount_column_name {
        Some(k) => {
            amounts.push(k.to_owned());
            assert(texts(amounts@) =~= amount_keywords(Some(k@)));
        },
        None => {
            assert(texts(amounts@) =~= amount_keywords(None));
        },
    }
    let mut descriptions: Vec<String> = Vec::new();
    descriptions.push("Описание".to_owned());
    descriptions.push("Description".to_owned());
    descriptions.push("Product".to_owned());
    assert(texts(descriptions@) =~= description_keywords());
    let heading = match find_keyword_cell(sheet, 6, 40, &codes) {
        Ok(at) => at,
        Err(e) => {
            return Err(e);
        },
    };
    let amount = match find_row_keyword_in_same_row(sheet, heading.0, 10, &amounts) {
        Ok(at) => at,
        Err(e) => {
            return Err(e);
        },
    };
    let description = match find_row_keyword_in_same_row(sheet, heading.0, 10, &descriptions) {
        Ok(at) => at,
        Err(e) => {
            return Err(e);
        },
    };
    extract_orders(sheet, heading.1, amount.1, description.1, heading.0)
}

} // verus!
