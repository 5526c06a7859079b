//! Grid data written as text: numbers separated by commas, found inline in an
//! argument or read from a file.

use vstd::prelude::*;
use vstd::std_specs::iter::IteratorSpec;

use crate::grid::SudokuGrid;

verus! {

/// The pieces of `t` between commas, in order: one more than there are commas.
pub open spec fn split_commas(t: Seq<char>) -> Seq<Seq<char>>
    decreases t.len(),
{
    if t.len() == 0 {
        seq![Seq::empty()]
    } else {
        let p = split_commas(t.drop_last());
        if t.last() == ',' {
            p.push(Seq::empty())
        } else {
            p.update(p.len() - 1, p.last().push(t.last()))
        }
    }
}

/// An ASCII decimal digit.
pub open spec fn is_digit(c: char) -> bool {
    '0' <= c <= '9'
}

/// The number that the decimal digits `d` write.
pub open spec fn decimal_value(d: Seq<char>) -> int
    decreases d.len(),
{
    if d.len() == 0 {
        0
    } else {
        decimal_value(d.drop_last()) * 10 + ((d.last() as u32) - ('0' as u32))
    }
}

/// `p` without a leading `+`.
pub open spec fn unsigned_part(p: Seq<char>) -> Seq<char> {
    if p.len() > 0 && p[0] == '+' {
        p.drop_first()
    } else {
        p
    }
}

/// What `str::parse::<u8>` gives on `p`: an optional `+`, then one or more ASCII
/// digits whose value is at most 255.
pub open spec fn parse_u8(p: Seq<char>) -> Option<u8> {
    let d = unsigned_part(p);
    if d.len() > 0 && (forall|i: int| 0 <= i < d.len() ==> is_digit(#[trigger] d[i]))
        && decimal_value(d) <= 255 {
        Some(decimal_value(d) as u8)
    } else {
        None
    }
}

/// The cell value that a piece of grid text stands for: its number, or 0 where it
/// is no number that fits a byte.
pub open spec fn cell_value(p: Seq<char>) -> u8 {
    match parse_u8(p) {
        Some(v) => v,
        None => 0,
    }
}

/// The 81 cell values that comma-separated grid text stands for, if it has exactly
/// 81 pieces.
pub open spec fn grid_values_of(t: Seq<char>) -> Option<Seq<u8>> {
    let pieces = split_commas(t);
    if pieces.len() == 81 {
        Some(pieces.map_values(|p: Seq<char>| cell_value(p)))
    } else {
        None
    }
}

proof fn lemma_decimal_prefix(d: Seq<char>, k: int)
    requires
        0 <= k <= d.len(),
        forall|i: int| 0 <= i < d.len() ==> is_digit(#[trigger] d[i]),
    ensures
        decimal_value(d) >= decimal_value(d.take(k)),
        decimal_value(d) >= 0,
    decreases d.len(),
{
    if d.len() > 0 {
        let e = d.drop_last();
        assert forall|i: int| 0 <= i < e.len() implies is_digit(#[trigger] e[i]) by {
            assert(e[i] == d[i]);
        }
        if k == d.len() {
            assert(d.take(k) =~= d);
            lemma_decimal_prefix(e, 0);
        } else {
            assert(e.take(k) =~= d.take(k));
            lemma_decimal_prefix(e, k);
        }
        assert(is_digit(d[d.len() - 1]));
    }
}

/// The value of one piece of grid text, as `cell_value` states.
fn parse_cell(p: &Vec<char>) -> (r: u8)
    ensures
        r == cell_value(p@),
{
    let start: usize = if p.len() > 0 && p[0] == '+' {
        1
    } else {
        0
    };
    let ghost d = unsigned_part(p@);
    assert(d =~= p@.subrange(start as int, p@.len() as int));
    if start >= p.len() {
        return 0;
    }
    let mut value: u32 = 0;
    let mut i: usize = start;
    while i < p.len()
        invariant
            start <= i <= p@.len(),
            d =~= p@.subrange(start as int, p@.len() as int),
            d == unsigned_part(p@),
            value <= 255,
            value == decimal_value(d.take(i - start)),
            forall|j: int| 0 <= j < i - start ==> is_digit(#[trigger] d[j]),
        decreases p.len() - i,
    {
        let c = p[i];
        assert(c == d[i - start]);
        if !('0' <= c && c <= '9') {
            assert(!is_digit(d[i - start]));
            assert(parse_u8(p@) is None);
            return 0;
        }
        assert(d.take(i + 1 - start).drop_last() =~= d.take(i - start));
        value = value * 10 + (c as u32 - '0' as u32);
        if value > 255 {
            proof {
                assert(decimal_value(d.take(i + 1 - start)) == value);
                if forall|j: int| 0 <= j < d.len() ==> is_digit(#[trigger] d[j]) {
                    lemma_decimal_prefix(d, i + 1 - start);
                }
                assert(parse_u8(p@) is None);
            }
            return 0;
        }
        i += 1;
    }
    assert(d.take(i - start) =~= d);
    value as u8
}

/// The cell values of comma-separated grid text, as `grid_values_of` states.
pub fn grid_values(text: &str) -> (r: Option<Vec<u8>>)
    ensures
        match r {
            Some(v) => grid_values_of(text@) == Some(v@),
            None => grid_values_of(text@) is None,
        },
{
    let t = chars_of(text);
    let mut values: Vec<u8> = Vec::new();
    let mut piece: Vec<char> = Vec::new();
    let ghost mut pieces: Seq<Seq<char>> = Seq::empty();
    let mut i: usize = 0;
    while i < t.len()
        invariant
            i <= t@.len(),
            split_commas(t@.take(i as int)) == pieces.push(piece@),
            values@ == pieces.map_values(|p: Seq<char>| cell_value(p)),
            values@.len() == pieces.len(),
        decreases t.len() - i,
    {
        let c = t[i];
        assert(t@.take(i + 1).drop_last() =~= t@.take(i as int));
        assert(t@.take(i + 1).last() == c);
        if c == ',' {
            let v = parse_cell(&piece);
            values.push(v);
            proof {
                assert(values@ =~= pieces.push(piece@).map_values(|p: Seq<char>| cell_value(p)));
                pieces = pieces.push(piece@);
            }
            piece = Vec::new();
            assert(split_commas(t@.take(i + 1)) =~= pieces.push(piece@));
        } else {
            piece.push(c);
            assert(split_commas(t@.take(i + 1)) =~= pieces.push(piece@));
        }
        i += 1;
    }
    assert(t@.take(i as int) =~= t@);
    let last = parse_cell(&piece);
    values.push(last);
    assert(values@ =~= pieces.push(piece@).map_values(|p: Seq<char>| cell_value(p)));
    if values.len() == 81 {
        Some(values)
    } else {
        None
    }
}

/// The text of the leftmost-first match of the regular expression `pattern` in
/// `text`, as the regex crate finds it; `None` where there is none, or where the
/// pattern does not compile.
pub uninterp spec fn first_match_of(pattern: Seq<char>, text: Seq<char>) -> Option<Seq<char>>;

/// Relies on regex's `Regex::new` and `Regex::find`: the pattern is compiled and
/// the text of its first match in `text` returned. The result depends on the two
/// strings alone.
#[verifier::external_body]
fn first_match(pattern: &str, text: &str) -> (r: Option<String>)
    ensures
        match r {
            Some(m) => first_match_of(pattern@, text@) == Some(m@),
            None => first_match_of(pattern@, text@) is None,
        },
{
    match regex::Regex::new(pattern) {
        Ok(re) => match re.find(text) {
            Some(m) => Some(m.as_str().to_string()),
            None => None,
        },
        Err(_) => None,
    }
}

/// The pattern of grid data written inline: digits, each perhaps followed by a
/// comma.
pub open spec fn inline_data_pattern() -> Seq<char> {
    "(\\d,?)+"@
}

/// The text a grid argument stands for: the inline grid data found in `info`, or
/// else the content of the file that `info` names, if it could be read.
pub open spec fn grid_text_of(info: Seq<char>, file_content: Option<Seq<char>>) -> Option<
    Seq<char>,
> {
    match first_match_of(inline_data_pattern(), info) {
        Some(m) => Some(m),
        None => file_content,
    }
}

/// The characters of `s`, in order.
fn chars_of(s: &str) -> (r: Vec<char>)
    ensures
        r@ == s@,
{
    broadcast use vstd::string::axiom_spec_iter, vstd::string::next_postcondition;

    let mut it = s.chars();
    let mut out: Vec<char> = Vec::new();
    loop
        invariant
            IteratorSpec::obeys_prophetic_iter_laws(&it),
            out@ + IteratorSpec::remaining(&it) == s@,
            IteratorSpec::decrease(&it) is Some,
        ensures
            out@ == s@,
        decreases IteratorSpec::decrease(&it)->0,
    {
        match it.next() {
            Some(c) => {
                out.push(c);
            },
            None => {
                assert(out@ =~= out@ + IteratorSpec::remaining(&it));
                break;
            },
        }
    }
    out
}

/// The grid that a grid argument `info` describes: the inline grid data found in
/// it, or else `file_content`, the content of the file it names, split on commas
/// into exactly 81 values. `None` where there is no text or it does not hold 81
/// values.
pub fn grid_from_argument(info: &str, file_content: Option<&str>) -> (r: Option<SudokuGrid>)
    ensures
        ({
            let file = match file_content {
                Some(f) => Some(f@),
                None => None,
            };
            match r {
                Some(g) => g.wf() && grid_text_of(info@, file) is Some && grid_values_of(
                    grid_text_of(info@, file)->Some_0,
                ) == Some(g@),
                None => grid_text_of(info@, file) is None || grid_values_of(
                    grid_text_of(info@, file)->Some_0,
                ) is None,
            }
        }),
{
    let values = match first_match("(\\d,?)+", info) {
        Some(m) => grid_values(m.as_str()),
        None => match file_content {
            Some(f) => grid_values(f),
            None => None,
        },
    };
    match values {
        Some(v) => Some(SudokuGrid::from_data(v.as_slice())),
        None => None,
    }
}

} // verus!
