//! Captions: lines of text with numbers in them, described piece by piece, and how
//! they read.
use crate::number::{Double, Single};
use vstd::prelude::*;
use vstd::string::{StrSliceExecFns, StringExecFns};

verus! {

/// A part of a caption.
#[derive(Clone, Copy, Debug)]
pub enum Piece<'a> {
    /// Text, as it stands.
    Text(&'a str),
    /// A number, with so many digits behind the decimal point.
    Fixed(Single, usize),
    /// A number, with so many digits behind the decimal point.
    FixedDouble(Double, usize),
    /// A count, with leading zeros up to a width.
    Count(u64, usize),
}

/// What a piece shows.
pub enum PieceModel {
    Text(Seq<char>),
    Fixed(Single, nat),
    FixedDouble(Double, nat),
    Count(nat, nat),
}

impl<'a> View for Piece<'a> {
    type V = PieceModel;

    open spec fn view(&self) -> PieceModel {
        match *self {
            Piece::Text(s) => PieceModel::Text(s@),
            Piece::Fixed(n, places) => PieceModel::Fixed(n, places as nat),
            Piece::FixedDouble(n, places) => PieceModel::FixedDouble(n, places as nat),
            Piece::Count(n, width) => PieceModel::Count(n as nat, width as nat),
        }
    }
}

/// A line of text.
#[derive(Debug)]
pub struct Caption<'a> {
    pub pieces: Vec<Piece<'a>>,
}

impl<'a> View for Caption<'a> {
    type V = Seq<PieceModel>;

    open spec fn view(&self) -> Seq<PieceModel> {
        self.pieces@.map_values(|p: Piece<'a>| p@)
    }
}

/// The caption of the given pieces.
pub fn caption<'a>(pieces: Vec<Piece<'a>>) -> (r: Caption<'a>)
    ensures
        r@ == pieces@.map_values(|p: Piece<'a>| p@),
{
    Caption { pieces }
}

/// A number that is still to be written out, with so many digits behind the decimal
/// point.
#[derive(Clone, Copy, PartialEq, Eq, Structural, Debug)]
pub enum Number {
    Single(Single, usize),
    Double(Double, usize),
}

impl View for Number {
    type V = PieceModel;

    open spec fn view(&self) -> PieceModel {
        match *self {
            Number::Single(n, places) => PieceModel::Fixed(n, places as nat),
            Number::Double(n, places) => PieceModel::FixedDouble(n, places as nat),
        }
    }
}

/// A decimal digit.
pub open spec fn digit(d: nat) -> Seq<char> {
    if d == 0 {
        "0"@
    } else if d == 1 {
        "1"@
    } else if d == 2 {
        "2"@
    } else if d == 3 {
        "3"@
    } else if d == 4 {
        "4"@
    } else if d == 5 {
        "5"@
    } else if d == 6 {
        "6"@
    } else if d == 7 {
        "7"@
    } else if d == 8 {
        "8"@
    } else {
        "9"@
    }
}

/// A count in decimal digits.
pub open spec fn decimal(n: nat) -> Seq<char>
    decreases n,
{
    if n < 10 {
        digit(n)
    } else {
        decimal(n / 10) + digit(n % 10)
    }
}

/// So many zeros.
pub open spec fn zeros(n: nat) -> Seq<char>
    decreases n,
{
    if n == 0 {
        Seq::empty()
    } else {
        zeros((n - 1) as nat) + "0"@
    }
}

/// A count with leading zeros up to a width.
pub open spec fn padded(n: nat, width: nat) -> Seq<char> {
    let plain = decimal(n);
    if width > plain.len() {
        zeros((width - plain.len()) as nat) + plain
    } else {
        plain
    }
}

/// The pieces that are numbers still to be written out, in their order.
pub open spec fn numbers_of(pieces: Seq<PieceModel>) -> Seq<PieceModel>
    decreases pieces.len(),
{
    if pieces.len() == 0 {
        Seq::empty()
    } else {
        let rest = numbers_of(pieces.drop_last());
        match pieces.last() {
            PieceModel::Text(_) => rest,
            PieceModel::Count(_, _) => rest,
            PieceModel::Fixed(_, _) => rest.push(pieces.last()),
            PieceModel::FixedDouble(_, _) => rest.push(pieces.last()),
        }
    }
}

/// How the pieces read one after the other, where the numbers read as given.
pub open spec fn joined(pieces: Seq<PieceModel>, numbers: Seq<String>) -> Seq<char>
    decreases pieces.len(),
{
    if pieces.len() == 0 {
        Seq::empty()
    } else {
        let rest = pieces.drop_last();
        let next = numbers_of(rest).len() as int;
        joined(rest, numbers) + match pieces.last() {
            PieceModel::Text(s) => s,
            PieceModel::Count(n, width) => padded(n, width),
            PieceModel::Fixed(_, _) => numbers[next]@,
            PieceModel::FixedDouble(_, _) => numbers[next]@,
        }
    }
}

fn digit_text(d: u64) -> (r: &'static str)
    requires
        d < 10,
    ensures
        r@ == digit(d as nat),
{
    if d == 0 {
        "0"
    } else if d == 1 {
        "1"
    } else if d == 2 {
        "2"
    } else if d == 3 {
        "3"
    } else if d == 4 {
        "4"
    } else if d == 5 {
        "5"
    } else if d == 6 {
        "6"
    } else if d == 7 {
        "7"
    } else if d == 8 {
        "8"
    } else {
        "9"
    }
}

fn push_decimal(text: &mut String, n: u64)
    ensures
        final(text)@ == old(text)@ + decimal(n as nat),
    decreases n,
{
    if n >= 10 {
        push_decimal(text, n / 10);
    }
    text.append(digit_text(n % 10));
    assert(text@ =~= old(text)@ + decimal(n as nat));
}

/// A count with leading zeros up to a width.
pub fn count_text(n: u64, width: usize) -> (r: String)
    ensures
        r@ == padded(n as nat, width as nat),
{
    let mut plain = String::new();
    push_decimal(&mut plain, n);
    assert(plain@ =~= decimal(n as nat));
    let length: usize = plain.as_str().unicode_len();
    if width <= length {
        return plain;
    }
    let missing: usize = width - length;
    let mut text = String::new();
    let mut i: usize = 0;
    while i < missing
        invariant
            i <= missing,
            text@ == zeros(i as nat),
        decreases missing - i,
    {
        text.append("0");
        i = i + 1;
    }
    text.append(plain.as_str());
    text
}

impl<'a> Caption<'a> {
    /// The numbers of the caption that are still to be written out, in their order.
    pub fn numbers(&self) -> (r: Vec<Number>)
        ensures
            r@.map_values(|n: Number| n@) == numbers_of(self@),
    {
        let mut numbers: Vec<Number> = Vec::new();
        let mut i: usize = 0;
        assert(self@.take(0) =~= Seq::empty());
        while i < self.pieces.len()
            invariant
                i <= self.pieces@.len(),
                numbers@.map_values(|n: Number| n@) =~= numbers_of(self@.take(i as int)),
            decreases self.pieces@.len() - i,
        {
            let ghost before = numbers@;
            assert(self@.take(i + 1).drop_last() =~= self@.take(i as int));
            assert(self@.take(i + 1).last() == self.pieces@[i as int]@);
            match self.pieces[i] {
                Piece::Text(_) => {},
                Piece::Count(_, _) => {},
                Piece::Fixed(n, places) => {
                    numbers.push(Number::Single(n, places));
                },
                Piece::FixedDouble(n, places) => {
                    numbers.push(Number::Double(n, places));
                },
            }
            i = i + 1;
        }
        assert(self@.take(i as int) =~= self@);
        numbers
    }

    /// How the caption reads, where its numbers read as given; `None` where there
    /// are not as many texts as numbers.
    pub fn text(&self, numbers: &Vec<String>) -> (r: Option<String>)
        ensures
            r is Some <==> numbers@.len() == numbers_of(self@).len(),
            r matches Some(text) ==> text@ == joined(self@, numbers@),
    {
        let mut text = String::new();
        let mut next: usize = 0;
        let mut i: usize = 0;
        assert(self@.take(0) =~= Seq::empty());
        while i < self.pieces.len()
            invariant
                i <= self.pieces@.len(),
                next == numbers_of(self@.take(i as int)).len(),
                next <= numbers@.len(),
                text@ == joined(self@.take(i as int), numbers@),
            decreases self.pieces@.len() - i,
        {
            proof {
                assert(self@.take(i + 1).drop_last() =~= self@.take(i as int));
                assert(self@.take(i + 1).last() == self.pieces@[i as int]@);
                lemma_numbers_grow(self@, i + 1);
            }
            match self.pieces[i] {
                Piece::Text(s) => {
                    text.append(s);
                },
                Piece::Count(n, width) => {
                    let count = count_text(n, width);
                    text.append(count.as_str());
                },
                Piece::Fixed(_, _) => {
                    if next >= numbers.len() {
                        return None;
                    }
                    text.append(numbers[next].as_str());
                    next = next + 1;
                },
                Piece::FixedDouble(_, _) => {
                    if next >= numbers.len() {
                        return None;
                    }
                    text.append(numbers[next].as_str());
                    next = next + 1;
                },
            }
            i = i + 1;
        }
        assert(self@.take(i as int) =~= self@);
        if next == numbers.len() {
            Some(text)
        } else {
            None
        }
    }
}

/// The number that a run of decimal digits stands for.
pub open spec fn decimal_value(text: Seq<char>) -> int
    decreases text.len(),
{
    if text.len() == 0 {
        0
    } else {
        10 * decimal_value(text.drop_last()) + (text.last() as int - '0' as int)
    }
}

/// A digit is the character so many places behind the zero.
pub proof fn digits_follow_the_zero(d: nat)
    requires
        d < 10,
    ensures
        digit(d).len() == 1,
        digit(d)[0] as int == '0' as int + d,
{
    reveal_strlit("0");
    reveal_strlit("1");
    reveal_strlit("2");
    reveal_strlit("3");
    reveal_strlit("4");
    reveal_strlit("5");
    reveal_strlit("6");
    reveal_strlit("7");
    reveal_strlit("8");
    reveal_strlit("9");
}

/// A count reads back from its decimal digits, all of which are digits; the first one
/// is a zero only where the count is.
pub proof fn decimal_reads_back(n: nat)
    ensures
        decimal_value(decimal(n)) == n,
        decimal(n).len() > 0,
        forall|i: int|
            0 <= i < decimal(n).len() ==> '0' as int <= (#[trigger] decimal(n)[i]) as int
                <= '9' as int,
        n > 0 ==> decimal(n)[0] != '0',
    decreases n,
{
    digits_follow_the_zero(n % 10);
    if n < 10 {
        reveal_with_fuel(decimal_value, 2);
    } else {
        decimal_reads_back(n / 10);
        let head = decimal(n / 10);
        let last = digit(n % 10);
        assert((head + last).drop_last() =~= head);
    }
}

proof fn lemma_zeros(n: nat)
    ensures
        zeros(n).len() == n,
        forall|i: int| 0 <= i < n ==> #[trigger] zeros(n)[i] == '0',
    decreases n,
{
    reveal_strlit("0");
    if n > 0 {
        lemma_zeros((n - 1) as nat);
    }
}

proof fn lemma_leading_zeros(n: nat, text: Seq<char>)
    ensures
        decimal_value(zeros(n) + text) == decimal_value(text),
    decreases text.len(), n,
{
    lemma_zeros(n);
    if text.len() > 0 {
        lemma_leading_zeros(n, text.drop_last());
        assert((zeros(n) + text).drop_last() =~= zeros(n) + text.drop_last());
    } else {
        assert(zeros(n) + text =~= zeros(n));
        reveal_strlit("0");
        if n > 0 {
            lemma_leading_zeros((n - 1) as nat, text);
            assert(zeros((n - 1) as nat) + text =~= zeros((n - 1) as nat));
            assert(zeros(n).drop_last() =~= zeros((n - 1) as nat));
        }
    }
}

/// A count with leading zeros is as wide as asked for, or as wide as its digits where
/// those are more, and reads back as the count.
pub proof fn padding_fills_the_width(n: nat, width: nat)
    ensures
        padded(n, width).len() == (if decimal(n).len() < width {
            width
        } else {
            decimal(n).len()
        }),
        decimal_value(padded(n, width)) == n,
        forall|i: int|
            0 <= i < padded(n, width).len() - decimal(n).len() ==> #[trigger] padded(n, width)[i]
                == '0',
{
    let plain = decimal(n);
    decimal_reads_back(n);
    if width > plain.len() {
        let missing = (width - plain.len()) as nat;
        lemma_zeros(missing);
        lemma_leading_zeros(missing, plain);
    }
}

/// One more piece is read behind those before it: a text as it stands, a count in its
/// digits, and a number as the next of those that are given reads.
pub proof fn pieces_read_one_after_the_other(
    pieces: Seq<PieceModel>,
    piece: PieceModel,
    numbers: Seq<String>,
)
    ensures
        joined(Seq::empty(), numbers).len() == 0,
        joined(pieces.push(piece), numbers) == joined(pieces, numbers) + (match piece {
            PieceModel::Text(s) => s,
            PieceModel::Count(n, width) => padded(n, width),
            PieceModel::Fixed(_, _) => numbers[numbers_of(pieces).len() as int]@,
            PieceModel::FixedDouble(_, _) => numbers[numbers_of(pieces).len() as int]@,
        }),
        numbers_of(Seq::empty()).len() == 0,
        numbers_of(pieces.push(piece)) == (if piece is Fixed || piece is FixedDouble {
            numbers_of(pieces).push(piece)
        } else {
            numbers_of(pieces)
        }),
{
    assert(pieces.push(piece).drop_last() =~= pieces);
}

/// A part of the pieces holds no more numbers than all of them.
proof fn lemma_numbers_grow(pieces: Seq<PieceModel>, n: int)
    requires
        0 <= n <= pieces.len(),
    ensures
        numbers_of(pieces.take(n)).len() <= numbers_of(pieces).len(),
    decreases pieces.len(),
{
    if n == pieces.len() {
        assert(pieces.take(n) =~= pieces);
    } else {
        lemma_numbers_grow(pieces.drop_last(), n);
        assert(pieces.drop_last().take(n) =~= pieces.take(n));
    }
}

} // verus!
