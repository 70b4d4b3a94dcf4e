//! Reading and writing numbers: identifiers and volumes as decimal
//! integers, prices as decimal numerals that stand for fixed-point
//! integers, the price times 10,000.
use vstd::prelude::*;
use vstd::string::StringExecFns;

verus! {

/// The value of a decimal digit.
pub open spec fn digit(c: char) -> Option<nat> {
    if c == '0' {
        Some(0)
    } else if c == '1' {
        Some(1)
    } else if c == '2' {
        Some(2)
    } else if c == '3' {
        Some(3)
    } else if c == '4' {
        Some(4)
    } else if c == '5' {
        Some(5)
    } else if c == '6' {
        Some(6)
    } else if c == '7' {
        Some(7)
    } else if c == '8' {
        Some(8)
    } else if c == '9' {
        Some(9)
    } else {
        None
    }
}

/// The decimal digit of a value below ten.
pub open spec fn digit_char(d: nat) -> char {
    if d == 0 {
        '0'
    } else if d == 1 {
        '1'
    } else if d == 2 {
        '2'
    } else if d == 3 {
        '3'
    } else if d == 4 {
        '4'
    } else if d == 5 {
        '5'
    } else if d == 6 {
        '6'
    } else if d == 7 {
        '7'
    } else if d == 8 {
        '8'
    } else {
        '9'
    }
}

/// Whether the text holds decimal digits only.
pub open spec fn all_digits(text: Seq<char>) -> bool {
    forall|i: int| 0 <= i < text.len() ==> digit(#[trigger] text[i]) is Some
}

/// The number that a text of decimal digits writes; 0 for no digit.
pub open spec fn value(text: Seq<char>) -> nat
    decreases text.len(),
{
    if text.len() == 0 {
        0
    } else {
        value(text.drop_last()) * 10 + match digit(text.last()) {
            Some(d) => d,
            None => 0,
        }
    }
}

/// The number that a text of decimal digits writes, if it fits 64 bits.
pub open spec fn natural(text: Seq<char>) -> Option<u64> {
    if all_digits(text) && value(text) <= u64::MAX {
        Some(value(text) as u64)
    } else {
        None
    }
}

/// The text without a leading plus sign.
pub open spec fn unsigned(text: Seq<char>) -> Seq<char> {
    if text.len() > 0 && text[0] == '+' {
        text.drop_first()
    } else {
        text
    }
}

/// An identifier or a volume: one decimal digit or more, after at most one
/// plus sign.
pub open spec fn number(text: Seq<char>) -> Option<u64> {
    if unsigned(text).len() > 0 {
        natural(unsigned(text))
    } else {
        None
    }
}

/// Index of the first `c` in the text; the length of the text if there is
/// none.
pub open spec fn find(text: Seq<char>, c: char) -> int
    decreases text.len(),
{
    if text.len() == 0 || text[0] == c {
        0
    } else {
        1 + find(text.drop_first(), c)
    }
}

/// Four zeros, to fill up a fraction.
pub open spec fn zeros() -> Seq<char> {
    seq!['0', '0', '0', '0']
}

/// The part of a numeral after its decimal point, the point being at `dot`.
pub open spec fn fraction(body: Seq<char>, dot: int) -> Seq<char> {
    if dot < body.len() {
        body.skip(dot + 1)
    } else {
        Seq::empty()
    }
}

/// A price: a decimal numeral, after at most one plus sign, with digits
/// before or after the point. The result is the numeral times 10,000,
/// decimals beyond the fourth cut off.
pub open spec fn price(text: Seq<char>) -> Option<u64> {
    let body = unsigned(text);
    let dot = find(body, '.');
    let whole = body.take(dot);
    let decimals = fraction(body, dot);
    if whole.len() + decimals.len() > 0 && all_digits(decimals) {
        natural(whole + (decimals + zeros()).take(4))
    } else {
        None
    }
}

/// A number in decimal digits, without leading zeros.
pub open spec fn decimal(n: nat) -> Seq<char>
    decreases n,
{
    if n < 10 {
        seq![digit_char(n)]
    } else {
        decimal(n / 10).push(digit_char(n % 10))
    }
}

/// The decimals of a price, `ten_thousandths` being below 10,000: nothing
/// if there are none, else a point and the decimals without trailing zeros.
pub open spec fn decimals_text(ten_thousandths: nat) -> Seq<char> {
    let d1 = digit_char(ten_thousandths / 1000);
    let d2 = digit_char((ten_thousandths / 100) % 10);
    let d3 = digit_char((ten_thousandths / 10) % 10);
    let d4 = digit_char(ten_thousandths % 10);
    if ten_thousandths == 0 {
        Seq::empty()
    } else if ten_thousandths % 1000 == 0 {
        seq!['.', d1]
    } else if ten_thousandths % 100 == 0 {
        seq!['.', d1, d2]
    } else if ten_thousandths % 10 == 0 {
        seq!['.', d1, d2, d3]
    } else {
        seq!['.', d1, d2, d3, d4]
    }
}

/// A fixed-point price as a decimal numeral.
pub open spec fn price_text(cost: u64) -> Seq<char> {
    decimal((cost / 10000) as nat) + decimals_text((cost % 10000) as nat)
}

/// A text of digits writes at least what any of its beginnings writes.
proof fn lemma_value_grows(text: Seq<char>, n: int)
    requires
        0 <= n <= text.len(),
    ensures
        value(text.take(n)) <= value(text),
    decreases text.len() - n,
{
    if n < text.len() {
        lemma_value_grows(text, n + 1);
        assert(text.take(n + 1).drop_last() == text.take(n));
    } else {
        assert(text.take(n) == text);
    }
}

/// The characters of a text.
pub(crate) fn chars_of(text: &str) -> (chars: Vec<char>)
    ensures
        chars@ == text@,
{
    let mut chars: Vec<char> = Vec::new();
    for c in it: text.chars()
        invariant
            chars@ == it.seq().take(it.index() as int),
            it.seq() == text@,
    {
        chars.push(c);
        assert(it.seq().take(it.index() as int).push(c) == it.seq().take(it.index() as int + 1));
    }
    assert(text@.take(text@.len() as int) == text@);
    chars
}

/// The value of a decimal digit.
pub(crate) fn digit_of(c: char) -> (d: Option<u64>)
    ensures
        match d {
            Some(d) => digit(c) == Some(d as nat),
            None => digit(c) is None,
        },
{
    if c == '0' {
        Some(0)
    } else if c == '1' {
        Some(1)
    } else if c == '2' {
        Some(2)
    } else if c == '3' {
        Some(3)
    } else if c == '4' {
        Some(4)
    } else if c == '5' {
        Some(5)
    } else if c == '6' {
        Some(6)
    } else if c == '7' {
        Some(7)
    } else if c == '8' {
        Some(8)
    } else if c == '9' {
        Some(9)
    } else {
        None
    }
}

/// Finds the first `c` at or after `from`.
pub(crate) fn find_char(chars: &Vec<char>, from: usize, c: char) -> (at: usize)
    requires
        from <= chars@.len(),
    ensures
        from <= at <= chars@.len(),
        at == from + find(chars@.skip(from as int), c),
{
    let ghost rest = chars@.skip(from as int);
    let mut at: usize = from;
    assert(rest.skip(0) == rest);
    while at < chars.len() && chars[at] != c
        invariant
            from <= at <= chars@.len(),
            rest == chars@.skip(from as int),
            find(rest, c) == (at - from) + find(rest.skip(at - from), c),
        decreases chars@.len() - at,
    {
        proof {
            assert(rest.skip(at - from).drop_first() == rest.skip(at - from + 1));
        }
        at = at + 1;
    }
    at
}

/// Copies the characters from `from` up to `to`.
pub(crate) fn cut(chars: &Vec<char>, from: usize, to: usize) -> (piece: Vec<char>)
    requires
        from <= to <= chars@.len(),
    ensures
        piece@ == chars@.subrange(from as int, to as int),
{
    let mut piece: Vec<char> = Vec::new();
    let mut i: usize = from;
    while i < to
        invariant
            from <= i <= to <= chars@.len(),
            piece@ == chars@.subrange(from as int, i as int),
        decreases to - i,
    {
        piece.push(chars[i]);
        assert(chars@.subrange(from as int, i as int).push(chars@[i as int]) == chars@.subrange(
            from as int,
            i as int + 1,
        ));
        i = i + 1;
    }
    piece
}

/// Whether two texts are the same.
pub(crate) fn same(left: &Vec<char>, right: &Vec<char>) -> (equal: bool)
    ensures
        equal == (left@ == right@),
{
    if left.len() != right.len() {
        return false;
    }
    let mut i: usize = 0;
    while i < left.len()
        invariant
            i <= left@.len(),
            left@.len() == right@.len(),
            forall|k: int| 0 <= k < i ==> left@[k] == right@[k],
        decreases left@.len() - i,
    {
        if left[i] != right[i] {
            return false;
        }
        i = i + 1;
    }
    assert(left@ =~= right@);
    true
}

/// Reads the digits from `from` to the end as a number.
pub(crate) fn read_value(chars: &Vec<char>, from: usize) -> (read: Option<u64>)
    requires
        from <= chars@.len(),
    ensures
        read == natural(chars@.skip(from as int)),
{
    let ghost text = chars@.skip(from as int);
    let mut total: u64 = 0;
    let mut i: usize = from;
    assert(text.take(0) == Seq::<char>::empty());
    while i < chars.len()
        invariant
            from <= i <= chars@.len(),
            text == chars@.skip(from as int),
            all_digits(text.take(i - from)),
            total == value(text.take(i - from)),
        decreases chars@.len() - i,
    {
        let ghost so_far = text.take(i - from);
        let ghost longer = text.take(i - from + 1);
        proof {
            assert(longer.drop_last() == so_far);
            assert(longer.last() == chars@[i as int]);
            assert(text[i - from] == chars@[i as int]);
        }
        match digit_of(chars[i]) {
            Some(d) => {
                if total > (u64::MAX - d) / 10 {
                    proof {
                        assert(value(longer) > u64::MAX);
                        lemma_value_grows(text, i - from + 1);
                    }
                    return None;
                }
                total = total * 10 + d;
                proof {
                    assert forall|k: int| 0 <= k < longer.len() implies digit(
                        #[trigger] longer[k],
                    ) is Some by {
                        if k < so_far.len() {
                            assert(longer[k] == so_far[k]);
                        }
                    }
                }
            },
            None => {
                return None;
            },
        }
        i = i + 1;
    }
    assert(text.take(text.len() as int) == text);
    Some(total)
}

/// Whether the characters from `from` to the end are all digits.
pub(crate) fn only_digits(chars: &Vec<char>, from: usize) -> (only: bool)
    requires
        from <= chars@.len(),
    ensures
        only == all_digits(chars@.skip(from as int)),
{
    let ghost text = chars@.skip(from as int);
    let mut i: usize = from;
    while i < chars.len()
        invariant
            from <= i <= chars@.len(),
            text == chars@.skip(from as int),
            forall|k: int| 0 <= k < i - from ==> digit(#[trigger] text[k]) is Some,
        decreases chars@.len() - i,
    {
        assert(text[i - from] == chars@[i as int]);
        if digit_of(chars[i]).is_none() {
            return false;
        }
        i = i + 1;
    }
    true
}

/// Reads an identifier or a volume.
pub(crate) fn read_number(text: &Vec<char>) -> (read: Option<u64>)
    ensures
        read == number(text@),
{
    let from: usize = if text.len() > 0 && text[0] == '+' {
        1
    } else {
        0
    };
    assert(text@.skip(from as int) == unsigned(text@));
    if from == text.len() {
        None
    } else {
        read_value(text, from)
    }
}

/// Reads a price as a fixed-point integer.
pub(crate) fn read_price(text: &Vec<char>) -> (read: Option<u64>)
    ensures
        read == price(text@),
{
    let from: usize = if text.len() > 0 && text[0] == '+' {
        1
    } else {
        0
    };
    let ghost body = unsigned(text@);
    assert(text@.skip(from as int) == body);
    let dot = find_char(text, from, '.');
    let ghost whole = body.take(dot - from);
    let ghost decimals = fraction(body, dot - from);
    let after: usize = if dot < text.len() {
        dot + 1
    } else {
        dot
    };
    assert(text@.skip(after as int) == decimals);
    if dot - from + (text.len() - after) == 0 {
        return None;
    }
    if !only_digits(text, after) {
        return None;
    }
    let mut digits = cut(text, from, dot);
    assert(digits@ == whole);
    let mut k: usize = 0;
    while k < 4
        invariant
            k <= 4,
            after <= text@.len(),
            text@.skip(after as int) == decimals,
            digits@ == whole + (decimals + zeros()).take(k as int),
        decreases 4 - k,
    {
        let ghost filled = (decimals + zeros()).take(k as int);
        let c: char = if k < text.len() - after {
            text[after + k]
        } else {
            '0'
        };
        assert(c == (decimals + zeros())[k as int]);
        digits.push(c);
        assert(filled.push(c) == (decimals + zeros()).take(k as int + 1));
        assert(digits@ == whole + (decimals + zeros()).take(k as int + 1));
        k = k + 1;
    }
    assert(digits@.skip(0) == digits@);
    read_value(&digits, 0)
}

/// The text of a decimal digit.
pub(crate) fn digit_text(d: u64) -> (text: &'static str)
    requires
        d < 10,
    ensures
        text@ == seq![digit_char(d as nat)],
{
    let text = if d == 0 {
        proof {
            reveal_strlit("0");
        }
        "0"
    } else if d == 1 {
        proof {
            reveal_strlit("1");
        }
        "1"
    } else if d == 2 {
        proof {
            reveal_strlit("2");
        }
        "2"
    } else if d == 3 {
        proof {
            reveal_strlit("3");
        }
        "3"
    } else if d == 4 {
        proof {
            reveal_strlit("4");
        }
        "4"
    } else if d == 5 {
        proof {
            reveal_strlit("5");
        }
        "5"
    } else if d == 6 {
        proof {
            reveal_strlit("6");
        }
        "6"
    } else if d == 7 {
        proof {
            reveal_strlit("7");
        }
        "7"
    } else if d == 8 {
        proof {
            reveal_strlit("8");
        }
        "8"
    } else {
        proof {
            reveal_strlit("9");
        }
        "9"
    };
    assert(text@ =~= seq![digit_char(d as nat)]);
    text
}

/// Appends a number in decimal digits.
pub(crate) fn push_decimal(line: &mut String, n: u64)
    ensures
        final(line)@ == old(line)@ + decimal(n as nat),
    decreases n,
{
    if n >= 10 {
        push_decimal(line, n / 10);
    }
    line.append(digit_text(n % 10));
    proof {
        if n >= 10 {
            assert(line@ == old(line)@ + decimal((n / 10) as nat).push(digit_char((n % 10) as nat)));
        }
    }
}

/// Appends a separator or a decimal point.
pub(crate) fn push_mark(line: &mut String, comma: bool)
    ensures
        final(line)@ == old(line)@ + seq![if comma {
            ','
        } else {
            '.'
        }],
{
    let ghost before = line@;
    if comma {
        proof {
            reveal_strlit(",");
        }
        line.append(",");
        assert(line@ == before + seq![',']);
    } else {
        proof {
            reveal_strlit(".");
        }
        line.append(".");
        assert(line@ == before + seq!['.']);
    }
}

/// Appends a fixed-point price as a decimal numeral.
pub(crate) fn push_price(line: &mut String, cost: u64)
    ensures
        final(line)@ == old(line)@ + price_text(cost),
{
    let ghost before = line@;
    push_decimal(line, cost / 10000);
    let ghost whole = line@;
    let rest: u64 = cost % 10000;
    if rest != 0 {
        push_mark(line, false);
        line.append(digit_text(rest / 1000));
        if rest % 1000 != 0 {
            line.append(digit_text((rest / 100) % 10));
            if rest % 100 != 0 {
                line.append(digit_text((rest / 10) % 10));
                if rest % 10 != 0 {
                    line.append(digit_text(rest % 10));
                }
            }
        }
    }
    assert(line@ == whole + decimals_text(rest as nat));
    assert(line@ == before + price_text(cost));
}

/// Reads a price written as a decimal numeral: the fixed-point integer
/// that stands for it, or `None` if the text is no such numeral or the
/// price does not fit.
pub fn parse_price(text: &str) -> (read: Option<u64>)
    ensures
        read == price(text@),
{
    let chars = chars_of(text);
    read_price(&chars)
}

/// Writes a fixed-point price as a decimal numeral.
pub fn format_price(cost: u64) -> (text: String)
    ensures
        text@ == price_text(cost),
{
    let mut text = String::new();
    push_price(&mut text, cost);
    assert(Seq::<char>::empty() + price_text(cost) == price_text(cost));
    text
}

/// Writing one more digit multiplies by ten and adds the digit.
proof fn lemma_value_push(text: Seq<char>, d: nat)
    requires
        d < 10,
    ensures
        value(text.push(digit_char(d))) == value(text) * 10 + d,
{
    let longer = text.push(digit_char(d));
    assert(longer.drop_last() == text);
    assert(longer.last() == digit_char(d));
}

/// A text of digits stays one with one more digit.
proof fn lemma_digits_push(text: Seq<char>, d: nat)
    requires
        all_digits(text),
        d < 10,
    ensures
        all_digits(text.push(digit_char(d))),
{
    let longer = text.push(digit_char(d));
    assert forall|i: int| 0 <= i < longer.len() implies digit(#[trigger] longer[i]) is Some by {
        if i < text.len() {
            assert(longer[i] == text[i]);
        }
    }
}

/// A written number is a text of digits, at least one, that writes the
/// number.
pub proof fn decimal_writes_the_number(n: nat)
    ensures
        decimal(n).len() > 0,
        all_digits(decimal(n)),
        value(decimal(n)) == n,
    decreases n,
{
    if n < 10 {
        let empty = Seq::<char>::empty();
        assert(decimal(n) == empty.push(digit_char(n)));
        lemma_value_push(empty, n);
        lemma_digits_push(empty, n);
    } else {
        decimal_writes_the_number(n / 10);
        lemma_value_push(decimal(n / 10), n % 10);
        lemma_digits_push(decimal(n / 10), n % 10);
    }
}

/// An identifier or a volume that was written reads back as it was.
pub proof fn number_reads_back(n: u64)
    ensures
        number(decimal(n as nat)) == Some(n),
{
    decimal_writes_the_number(n as nat);
    assert(digit(decimal(n as nat)[0]) is Some);
}

/// In a text of digits followed by a point, or by nothing, the first
/// point is where the digits end.
proof fn lemma_find_point(digits: Seq<char>, rest: Seq<char>)
    requires
        all_digits(digits),
        rest.len() == 0 || rest[0] == '.',
    ensures
        find(digits + rest, '.') == digits.len(),
    decreases digits.len(),
{
    let text = digits + rest;
    if digits.len() == 0 {
        assert(text == rest);
    } else {
        assert(text[0] == digits[0]);
        assert(digit(digits[0]) is Some);
        let fewer = digits.drop_first();
        assert(text.drop_first() == fewer + rest);
        assert forall|i: int| 0 <= i < fewer.len() implies digit(#[trigger] fewer[i]) is Some by {
            assert(fewer[i] == digits[i + 1]);
        }
        lemma_find_point(fewer, rest);
    }
}

/// The four decimals of a price, as digits.
pub open spec fn four_decimals(ten_thousandths: nat) -> Seq<char> {
    seq![
        digit_char(ten_thousandths / 1000),
        digit_char((ten_thousandths / 100) % 10),
        digit_char((ten_thousandths / 10) % 10),
        digit_char(ten_thousandths % 10),
    ]
}

/// The written decimals are a point and digits, and filled up with zeros
/// they are the four decimals.
proof fn lemma_decimals_text(ten_thousandths: nat)
    requires
        ten_thousandths < 10000,
    ensures
        ({
            let tail = decimals_text(ten_thousandths);
            let digits = if tail.len() == 0 {
                tail
            } else {
                tail.skip(1)
            };
            &&& tail.len() == 0 || tail[0] == '.'
            &&& all_digits(digits)
            &&& (digits + zeros()).take(4) == four_decimals(ten_thousandths)
        }),
{
    let tail = decimals_text(ten_thousandths);
    let digits = if tail.len() == 0 {
        tail
    } else {
        tail.skip(1)
    };
    assert((digits + zeros()).take(4) =~= four_decimals(ten_thousandths));
}

/// A number below 10,000 is the sum of its four digits, each times its
/// power of ten.
proof fn lemma_four_digits(n: nat)
    requires
        n < 10000,
    ensures
        n / 1000 < 10,
        n == (n / 1000) * 1000 + ((n / 100) % 10) * 100 + ((n / 10) % 10) * 10 + n % 10,
{
    let tens = n / 10;
    let hundreds = n / 100;
    let thousands = n / 1000;
    assert(n == tens * 10 + n % 10);
    assert(hundreds == tens / 10);
    assert(tens == hundreds * 10 + tens % 10);
    assert(thousands == hundreds / 10);
    assert(hundreds == thousands * 10 + hundreds % 10);
}

/// Two more digits multiply by a hundred and add the digits.
proof fn lemma_value_two(text: Seq<char>, first: nat, second: nat)
    requires
        all_digits(text),
        first < 10,
        second < 10,
    ensures
        all_digits(text.push(digit_char(first)).push(digit_char(second))),
        value(text.push(digit_char(first)).push(digit_char(second))) == value(text) * 100 + first
            * 10 + second,
{
    let longer = text.push(digit_char(first));
    lemma_value_push(text, first);
    lemma_digits_push(text, first);
    lemma_value_push(longer, second);
    lemma_digits_push(longer, second);
}

/// Four more digits multiply by 10,000 and add the digits.
proof fn lemma_value_four(whole: Seq<char>, ten_thousandths: nat)
    requires
        all_digits(whole),
        ten_thousandths < 10000,
    ensures
        all_digits(whole + four_decimals(ten_thousandths)),
        value(whole + four_decimals(ten_thousandths)) == value(whole) * 10000 + ten_thousandths,
{
    let d1 = ten_thousandths / 1000;
    let d2 = (ten_thousandths / 100) % 10;
    let d3 = (ten_thousandths / 10) % 10;
    let d4 = ten_thousandths % 10;
    let two = whole.push(digit_char(d1)).push(digit_char(d2));
    let four = two.push(digit_char(d3)).push(digit_char(d4));
    lemma_four_digits(ten_thousandths);
    lemma_value_two(whole, d1, d2);
    lemma_value_two(two, d3, d4);
    assert(whole + four_decimals(ten_thousandths) == four);
}

/// A price that was written reads back as it was.
pub proof fn price_reads_back(cost: u64)
    ensures
        price(price_text(cost)) == Some(cost),
{
    let units = (cost / 10000) as nat;
    let rest = (cost % 10000) as nat;
    let whole = decimal(units);
    let tail = decimals_text(rest);
    let text = whole + tail;
    decimal_writes_the_number(units);
    lemma_decimals_text(rest);
    lemma_value_four(whole, rest);
    lemma_find_point(whole, tail);
    assert(unsigned(text) == text) by {
        assert(text[0] == whole[0]);
        assert(digit(whole[0]) is Some);
    }
    assert(text.take(whole.len() as int) == whole);
    assert(fraction(text, whole.len() as int) == if tail.len() == 0 {
        tail
    } else {
        tail.skip(1)
    });
}

} // verus!
