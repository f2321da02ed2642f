use vstd::prelude::*;

use crate::u256::push_char;

verus! {

/// The characters that `char::is_whitespace` accepts: those with the Unicode
/// property White_Space.
pub open spec fn is_whitespace(c: char) -> bool {
    ||| ('\u{9}' <= c && c <= '\u{d}')
    ||| c == ' '
    ||| c == '\u{85}'
    ||| c == '\u{a0}'
    ||| c == '\u{1680}'
    ||| ('\u{2000}' <= c && c <= '\u{200a}')
    ||| c == '\u{2028}'
    ||| c == '\u{2029}'
    ||| c == '\u{202f}'
    ||| c == '\u{205f}'
    ||| c == '\u{3000}'
}

/// Reading `text` from the left: the words completed so far and the word
/// being read.
pub open spec fn scan_words(text: Seq<char>) -> (Seq<Seq<char>>, Seq<char>)
    decreases text.len(),
{
    if text.len() == 0 {
        (Seq::empty(), Seq::empty())
    } else {
        let (done, current) = scan_words(text.drop_last());
        let c = text.last();
        if is_whitespace(c) {
            if current.len() > 0 {
                (done.push(current), Seq::empty())
            } else {
                (done, current)
            }
        } else {
            (done, current.push(c))
        }
    }
}

/// The maximal runs of non-whitespace characters of `text`, in order, as
/// `str::split_whitespace` yields them.
pub open spec fn words(text: Seq<char>) -> Seq<Seq<char>> {
    let (done, current) = scan_words(text);
    if current.len() > 0 {
        done.push(current)
    } else {
        done
    }
}

/// Why a text is not a `u64`, as `std::num::IntErrorKind` tells it.
#[derive(Clone, Copy, Debug, PartialEq, Eq, Structural)]
pub enum AmountError {
    /// The text is empty.
    Empty,
    /// A character is not a decimal digit (a sign alone counts as one).
    InvalidDigit,
    /// The number does not fit in 64 bits.
    PosOverflow,
}

/// One of the digits `0` to `9`.
pub open spec fn is_digit(c: char) -> bool {
    '0' <= c && c <= '9'
}

/// Reading `digits` left to right as `str::parse::<u64>` reads them: the
/// first character that is not a digit, or the first digit that takes the
/// value past `u64::MAX`, decides the error.
pub open spec fn scan_decimal(digits: Seq<char>) -> Result<u64, AmountError>
    decreases digits.len(),
{
    if digits.len() == 0 {
        Ok(0)
    } else {
        match scan_decimal(digits.drop_last()) {
            Err(e) => Err(e),
            Ok(v) => {
                let c = digits.last();
                if !is_digit(c) {
                    Err(AmountError::InvalidDigit)
                } else if v * 10 + (c as nat - '0' as nat) > u64::MAX {
                    Err(AmountError::PosOverflow)
                } else {
                    Ok((v * 10 + (c as nat - '0' as nat)) as u64)
                }
            },
        }
    }
}

/// What `str::parse::<u64>` gives for `text`: an error for the empty text
/// and for a sign alone; otherwise the digits after an optional `+`.
pub open spec fn parsed_u64(text: Seq<char>) -> Result<u64, AmountError> {
    if text.len() == 0 {
        Err(AmountError::Empty)
    } else if text.len() == 1 && (text[0] == '+' || text[0] == '-') {
        Err(AmountError::InvalidDigit)
    } else if text[0] == '+' {
        scan_decimal(text.drop_first())
    } else {
        scan_decimal(text)
    }
}

pub open spec fn balance_word() -> Seq<char> {
    seq!['b', 'a', 'l', 'a', 'n', 'c', 'e']
}

pub open spec fn send_word() -> Seq<char> {
    seq!['s', 'e', 'n', 'd']
}

pub open spec fn exit_word() -> Seq<char> {
    seq!['e', 'x', 'i', 't']
}

/// One line typed at the wallet's prompt.
#[derive(Debug, PartialEq, Eq)]
pub enum CliCommand {
    /// Nothing but whitespace.
    Empty,
    /// Show the balance.
    Balance,
    /// Send `amount` to the contact named `recipient`.
    Send { recipient: String, amount: u64 },
    /// `send` with other than two arguments.
    SendUsage,
    /// Leave the prompt.
    Exit,
    /// Any other first word.
    Unknown,
}

/// A line that the prompt refuses.
#[derive(Clone, Copy, Debug, PartialEq, Eq, Structural)]
pub enum CliError {
    /// The amount of a `send` is not a number that fits in 64 bits.
    InvalidAmount(AmountError),
}

/// The characters of `text` that are not whitespace, in order.
pub open spec fn non_whitespace(text: Seq<char>) -> Seq<char>
    decreases text.len(),
{
    if text.len() == 0 {
        Seq::empty()
    } else if is_whitespace(text.last()) {
        non_whitespace(text.drop_last())
    } else {
        non_whitespace(text.drop_last()).push(text.last())
    }
}

/// The words written one after another.
pub open spec fn concat_words(ws: Seq<Seq<char>>) -> Seq<char>
    decreases ws.len(),
{
    if ws.len() == 0 {
        Seq::empty()
    } else {
        concat_words(ws.drop_last()) + ws.last()
    }
}

/// The whitespace that separates words is exactly Unicode's White_Space:
/// the controls from U+0009 to U+000D (tab, line feed, vertical tab, form
/// feed, carriage return), the space, U+0085, the no-break space, U+1680,
/// the spaces from U+2000 to U+200A, the line and paragraph separators,
/// U+202F, U+205F and U+3000.
pub proof fn lemma_whitespace_is_unicode_white_space(c: char)
    ensures
        is_whitespace(c) <==> (c == '\t' || c == '\n' || c == '\u{b}' || c == '\u{c}' || c
            == '\r' || c == ' ' || c == '\u{85}' || c == '\u{a0}' || c == '\u{1680}' || c
            == '\u{2000}' || c == '\u{2001}' || c == '\u{2002}' || c == '\u{2003}' || c
            == '\u{2004}' || c == '\u{2005}' || c == '\u{2006}' || c == '\u{2007}' || c
            == '\u{2008}' || c == '\u{2009}' || c == '\u{200a}' || c == '\u{2028}' || c
            == '\u{2029}' || c == '\u{202f}' || c == '\u{205f}' || c == '\u{3000}'),
{
}

proof fn lemma_scan_words_shape(text: Seq<char>)
    ensures
        forall|i: int|
            0 <= i < scan_words(text).0.len() ==> (#[trigger] scan_words(text).0[i]).len() > 0
                && forall|j: int|
                0 <= j < scan_words(text).0[i].len() ==> !is_whitespace(
                    #[trigger] scan_words(text).0[i][j],
                ),
        forall|j: int|
            0 <= j < scan_words(text).1.len() ==> !is_whitespace(#[trigger] scan_words(text).1[j]),
        concat_words(scan_words(text).0) + scan_words(text).1 == non_whitespace(text),
    decreases text.len(),
{
    if text.len() == 0 {
        assert(concat_words(Seq::<Seq<char>>::empty()) + Seq::<char>::empty() =~= Seq::<
            char,
        >::empty());
    } else {
        let rest = text.drop_last();
        lemma_scan_words_shape(rest);
        let (done, current) = scan_words(rest);
        let c = text.last();
        if is_whitespace(c) {
            if current.len() > 0 {
                assert(done.push(current).drop_last() =~= done);
                assert(concat_words(done.push(current)) + Seq::<char>::empty() =~= concat_words(
                    done,
                ) + current);
            }
        } else {
            assert(concat_words(done) + current.push(c) =~= (concat_words(done) + current).push(
                c,
            ));
        }
    }
}

/// The words of a line are non-empty, hold no whitespace, and together hold
/// every other character of the line, in order.
pub proof fn lemma_words_shape(text: Seq<char>)
    ensures
        forall|i: int|
            0 <= i < words(text).len() ==> (#[trigger] words(text)[i]).len() > 0 && forall|j: int|
                0 <= j < words(text)[i].len() ==> !is_whitespace(#[trigger] words(text)[i][j]),
        concat_words(words(text)) == non_whitespace(text),
{
    lemma_scan_words_shape(text);
    let (done, current) = scan_words(text);
    if current.len() > 0 {
        assert(done.push(current).drop_last() =~= done);
        assert forall|i: int| 0 <= i < words(text).len() implies (#[trigger] words(text)[i]).len()
            > 0 && forall|j: int|
            0 <= j < words(text)[i].len() ==> !is_whitespace(#[trigger] words(text)[i][j]) by {
            if i < done.len() {
                assert(words(text)[i] == done[i]);
            }
        }
    } else {
        assert(current =~= Seq::<char>::empty());
        assert(concat_words(done) + current =~= concat_words(done));
    }
}

proof fn lemma_scan_words_after_break(p: Seq<char>, b: Seq<char>)
    requires
        scan_words(p).1.len() == 0,
    ensures
        scan_words(p + b) == (scan_words(p).0 + scan_words(b).0, scan_words(b).1),
    decreases b.len(),
{
    if b.len() == 0 {
        assert(p + b =~= p);
        assert(scan_words(p).0 + Seq::<Seq<char>>::empty() =~= scan_words(p).0);
        assert(scan_words(p).1 =~= Seq::<char>::empty());
    } else {
        assert((p + b).drop_last() =~= p + b.drop_last());
        assert((p + b).last() == b.last());
        lemma_scan_words_after_break(p, b.drop_last());
        let (done, current) = scan_words(b.drop_last());
        assert((scan_words(p).0 + done).push(current) =~= scan_words(p).0 + done.push(current));
    }
}

/// Whitespace splits a line: the words of `a`, a whitespace character, then
/// `b` are the words of `a` followed by those of `b`.
pub proof fn lemma_words_split(a: Seq<char>, w: char, b: Seq<char>)
    requires
        is_whitespace(w),
    ensures
        words(a + seq![w] + b) == words(a) + words(b),
{
    let aw = a + seq![w];
    assert(aw.drop_last() =~= a);
    assert(aw.last() == w);
    assert(scan_words(aw).0 == words(a));
    assert(scan_words(aw).1.len() == 0);
    lemma_scan_words_after_break(aw, b);
    let (done, current) = scan_words(b);
    if current.len() > 0 {
        assert((words(a) + done).push(current) =~= words(a) + done.push(current));
    }
}

proof fn lemma_scan_words_unbroken(t: Seq<char>)
    requires
        forall|i: int| 0 <= i < t.len() ==> !is_whitespace(#[trigger] t[i]),
    ensures
        scan_words(t) == (Seq::<Seq<char>>::empty(), t),
    decreases t.len(),
{
    if t.len() == 0 {
        assert(t =~= Seq::<char>::empty());
    } else {
        let rest = t.drop_last();
        assert forall|i: int| 0 <= i < rest.len() implies !is_whitespace(#[trigger] rest[i]) by {
            assert(rest[i] == t[i]);
        }
        lemma_scan_words_unbroken(rest);
        assert(rest.push(t.last()) =~= t);
    }
}

/// A line without whitespace is one word, itself; an empty line has none.
pub proof fn lemma_words_unbroken(t: Seq<char>)
    requires
        forall|i: int| 0 <= i < t.len() ==> !is_whitespace(#[trigger] t[i]),
    ensures
        t.len() > 0 ==> words(t) == seq![t],
        t.len() == 0 ==> words(t) == Seq::<Seq<char>>::empty(),
{
    lemma_scan_words_unbroken(t);
    if t.len() > 0 {
        assert(Seq::<Seq<char>>::empty().push(t) =~= seq![t]);
    }
}

/// The number that a string of decimal digits denotes.
pub open spec fn digits_value(digits: Seq<char>) -> nat
    decreases digits.len(),
{
    if digits.len() == 0 {
        0
    } else {
        digits_value(digits.drop_last()) * 10 + (digits.last() as nat - '0' as nat) as nat
    }
}

/// A non-empty string of the digits `0` to `9`.
pub open spec fn is_decimal(digits: Seq<char>) -> bool {
    &&& digits.len() > 0
    &&& forall|i: int| 0 <= i < digits.len() ==> '0' <= #[trigger] digits[i] && digits[i] <= '9'
}

/// The text after an optional leading `+`.
pub open spec fn unsigned_digits(text: Seq<char>) -> Seq<char> {
    if text.len() > 0 && text[0] == '+' {
        text.drop_first()
    } else {
        text
    }
}

/// Digits alone read as their decimal value, or overflow.
proof fn lemma_scan_digits(a: Seq<char>)
    requires
        forall|j: int| 0 <= j < a.len() ==> '0' <= #[trigger] a[j] && a[j] <= '9',
    ensures
        scan_decimal(a) == (if digits_value(a) <= u64::MAX {
            Ok::<u64, AmountError>(digits_value(a) as u64)
        } else {
            Err::<u64, AmountError>(AmountError::PosOverflow)
        }),
    decreases a.len(),
{
    if a.len() > 0 {
        let rest = a.drop_last();
        assert forall|j: int| 0 <= j < rest.len() implies '0' <= #[trigger] rest[j] && rest[j]
            <= '9' by {
            assert(rest[j] == a[j]);
        }
        lemma_scan_digits(rest);
        assert('0' <= a[a.len() - 1]);
    }
}

/// The first character that is not a digit ends the reading: with an
/// invalid digit, or with overflow where the digits before it overflowed.
proof fn lemma_scan_first_non_digit(d: Seq<char>, k: int)
    requires
        0 <= k < d.len(),
        !is_digit(d[k]),
        forall|j: int| 0 <= j < k ==> is_digit(#[trigger] d[j]),
    ensures
        scan_decimal(d) == (if digits_value(d.take(k)) <= u64::MAX {
            Err::<u64, AmountError>(AmountError::InvalidDigit)
        } else {
            Err::<u64, AmountError>(AmountError::PosOverflow)
        }),
{
    let head = d.take(k);
    assert forall|j: int| 0 <= j < head.len() implies '0' <= #[trigger] head[j] && head[j]
        <= '9' by {
        assert(head[j] == d[j]);
        assert(is_digit(d[j]));
    }
    lemma_scan_digits(head);
    let head1 = d.take(k + 1);
    assert(head1.drop_last() =~= head);
    assert(head1.last() == d[k]);
    assert(d =~= head1 + d.skip(k + 1));
    lemma_scan_error_settled(head1, d.skip(k + 1));
}

/// What reading an amount gives, for every text: nothing is read from an
/// empty text or a sign alone; an amount is read exactly from decimal
/// digits after an optional `+` whose value fits in 64 bits, and is their
/// decimal value; digits worth more overflow; and the first character that
/// is not a digit makes the text an invalid number, unless the digits
/// before it already overflowed.
pub proof fn lemma_amount_reading(text: Seq<char>)
    ensures
        text.len() == 0 ==> parsed_u64(text) == Err::<u64, AmountError>(AmountError::Empty),
        text == seq!['+'] ==> parsed_u64(text) == Err::<u64, AmountError>(
            AmountError::InvalidDigit,
        ),
        parsed_u64(text) matches Ok(v) ==> is_decimal(unsigned_digits(text)) && v == digits_value(
            unsigned_digits(text),
        ),
        is_decimal(unsigned_digits(text)) && digits_value(unsigned_digits(text)) <= u64::MAX
            ==> parsed_u64(text) == Ok::<u64, AmountError>(
            digits_value(unsigned_digits(text)) as u64,
        ),
        is_decimal(unsigned_digits(text)) && digits_value(unsigned_digits(text)) > u64::MAX
            ==> parsed_u64(text) == Err::<u64, AmountError>(AmountError::PosOverflow),
        forall|k: int|
            0 <= k < unsigned_digits(text).len() && !is_digit(
                #[trigger] unsigned_digits(text)[k],
            ) && (forall|j: int| 0 <= j < k ==> is_digit(unsigned_digits(text)[j])) ==> parsed_u64(
                text,
            ) == (if digits_value(unsigned_digits(text).take(k)) <= u64::MAX {
                Err::<u64, AmountError>(AmountError::InvalidDigit)
            } else {
                Err::<u64, AmountError>(AmountError::PosOverflow)
            }),
{
    let d = unsigned_digits(text);
    if text.len() > 0 && !(text.len() == 1 && (text[0] == '+' || text[0] == '-')) {
        assert(parsed_u64(text) == scan_decimal(d));
        if forall|j: int| 0 <= j < d.len() ==> '0' <= #[trigger] d[j] && d[j] <= '9' {
            lemma_scan_digits(d);
        } else {
            let k0 = choose|j: int| 0 <= j < d.len() && !('0' <= #[trigger] d[j] && d[j] <= '9');
            lemma_first_non_digit_exists(d, k0);
        }
        assert forall|k: int|
            0 <= k < d.len() && !is_digit(#[trigger] d[k]) && (forall|j: int|
                0 <= j < k ==> is_digit(d[j])) implies parsed_u64(text) == (if digits_value(
            d.take(k),
        ) <= u64::MAX {
            Err::<u64, AmountError>(AmountError::InvalidDigit)
        } else {
            Err::<u64, AmountError>(AmountError::PosOverflow)
        }) by {
            lemma_scan_first_non_digit(d, k);
        }
    } else if text.len() == 1 && text[0] == '-' {
        assert(d == text);
        assert(!is_digit(d[0]));
        assert(d.take(0) =~= Seq::<char>::empty());
        assert(digits_value(d.take(0)) == 0);
    }
}

/// Where some character is not a digit, the first such character ends the
/// reading with an error.
proof fn lemma_first_non_digit_exists(d: Seq<char>, k0: int)
    requires
        0 <= k0 < d.len(),
        !is_digit(d[k0]),
    ensures
        scan_decimal(d) is Err,
    decreases k0,
{
    if exists|j: int| 0 <= j < k0 && !is_digit(#[trigger] d[j]) {
        let j = choose|j: int| 0 <= j < k0 && !is_digit(#[trigger] d[j]);
        lemma_first_non_digit_exists(d, j);
    } else {
        lemma_scan_first_non_digit(d, k0);
    }
}

/// Once reading the digits has failed, reading further does not change the
/// error.
proof fn lemma_scan_error_settled(a: Seq<char>, b: Seq<char>)
    requires
        scan_decimal(a) is Err,
    ensures
        scan_decimal(a + b) == scan_decimal(a),
    decreases b.len(),
{
    if b.len() == 0 {
        assert(a + b =~= a);
    } else {
        assert((a + b).drop_last() =~= a + b.drop_last());
        lemma_scan_error_settled(a, b.drop_last());
    }
}

/// The value of decimal text, or why it has none, as `str::parse::<u64>`
/// reads it.
pub fn parse_u64(text: &Vec<char>) -> (r: Result<u64, AmountError>)
    ensures
        r == parsed_u64(text@),
        r matches Ok(v) ==> is_decimal(unsigned_digits(text@)) && v == digits_value(
            unsigned_digits(text@),
        ),
{
    proof {
        lemma_amount_reading(text@);
    }
    let n = text.len();
    if n == 0 {
        return Err(AmountError::Empty);
    }
    if n == 1 && (text[0] == '+' || text[0] == '-') {
        return Err(AmountError::InvalidDigit);
    }
    let start: usize = if text[0] == '+' {
        1
    } else {
        0
    };
    let ghost digits = text@.skip(start as int);
    proof {
        if start == 1 {
            assert(digits =~= text@.drop_first());
        } else {
            assert(digits =~= text@);
        }
        assert(text@.subrange(start as int, start as int) =~= Seq::<char>::empty());
    }
    let mut value: u64 = 0;
    let mut i: usize = start;
    while i < n
        invariant
            n == text@.len(),
            start <= i <= n,
            digits == text@.skip(start as int),
            parsed_u64(text@) == scan_decimal(digits),
            scan_decimal(text@.subrange(start as int, i as int)) == Ok::<u64, AmountError>(value),
        decreases n - i,
    {
        let c = text[i];
        let ghost head = text@.subrange(start as int, i + 1);
        let ghost tail = text@.subrange(i + 1, n as int);
        proof {
            assert(head.drop_last() =~= text@.subrange(start as int, i as int));
            assert(head.last() == c);
            assert(digits =~= head + tail);
        }
        if !('0' <= c && c <= '9') {
            proof {
                lemma_scan_error_settled(head, tail);
            }
            return Err(AmountError::InvalidDigit);
        }
        let d = (c as u32 - '0' as u32) as u64;
        match value.checked_mul(10) {
            Some(v10) => match v10.checked_add(d) {
                Some(v) => {
                    value = v;
                },
                None => {
                    proof {
                        lemma_scan_error_settled(head, tail);
                    }
                    return Err(AmountError::PosOverflow);
                },
            },
            None => {
                proof {
                    lemma_scan_error_settled(head, tail);
                }
                return Err(AmountError::PosOverflow);
            },
        }
        i = i + 1;
    }
    assert(text@.subrange(start as int, n as int) =~= digits);
    Ok(value)
}

/// Whether `a` holds exactly the characters of `b`.
fn chars_match<const N: usize>(a: &Vec<char>, b: &[char; N]) -> (eq: bool)
    ensures
        eq == (a@ == b@),
{
    if a.len() != N {
        return false;
    }
    let mut i: usize = 0;
    while i < N
        invariant
            a@.len() == N,
            i <= N,
            forall|k: int| 0 <= k < i ==> a@[k] == b@[k],
        decreases N - i,
    {
        if a[i] != b[i] {
            return false;
        }
        i = i + 1;
    }
    assert(a@ =~= b@);
    true
}

/// The whitespace-separated words of `line`.
pub fn split_words(line: &str) -> (r: Vec<Vec<char>>)
    ensures
        r@.map_values(|w: Vec<char>| w@) == words(line@),
{
    let n = line.unicode_len();
    let mut done: Vec<Vec<char>> = Vec::new();
    let mut current: Vec<char> = Vec::new();
    let mut i: usize = 0;
    while i < n
        invariant
            n == line@.len(),
            i <= n,
            (done@.map_values(|w: Vec<char>| w@), current@) == scan_words(line@.take(i as int)),
        decreases n - i,
    {
        let c = line.get_char(i);
        proof {
            assert(line@.take(i + 1).drop_last() =~= line@.take(i as int));
        }
        let ghost old_done = done@.map_values(|w: Vec<char>| w@);
        if c == ' ' || ('\u{9}' <= c && c <= '\u{d}') || c == '\u{85}' || c == '\u{a0}' || c
            == '\u{1680}' || ('\u{2000}' <= c && c <= '\u{200a}') || c == '\u{2028}' || c
            == '\u{2029}' || c == '\u{202f}' || c == '\u{205f}' || c == '\u{3000}' {
            if current.len() > 0 {
                let word = current;
                done.push(word);
                current = Vec::new();
                proof {
                    assert(done@.map_values(|w: Vec<char>| w@) =~= old_done.push(word@));
                }
            }
        } else {
            current.push(c);
        }
        i = i + 1;
    }
    assert(line@.take(n as int) =~= line@);
    let ghost old_done = done@.map_values(|w: Vec<char>| w@);
    if current.len() > 0 {
        let word = current;
        done.push(word);
        proof {
            assert(done@.map_values(|w: Vec<char>| w@) =~= old_done.push(word@));
        }
    }
    done
}

/// What the prompt does with `line`: nothing for a blank line; the command
/// its first word names; for `send`, the usage hint unless exactly a contact
/// and an amount follow, and an error where the amount is not a number.
pub fn parse_command(line: &str) -> (r: Result<CliCommand, CliError>)
    ensures
        ({
            let w = words(line@);
            if w.len() == 0 {
                r == Ok::<CliCommand, CliError>(CliCommand::Empty)
            } else if w[0] == balance_word() {
                r == Ok::<CliCommand, CliError>(CliCommand::Balance)
            } else if w[0] == send_word() {
                if w.len() != 3 {
                    r == Ok::<CliCommand, CliError>(CliCommand::SendUsage)
                } else {
                    match parsed_u64(w[2]) {
                        Ok(a) => r matches Ok(CliCommand::Send { recipient, amount })
                            && recipient@ == w[1] && amount == a,
                        Err(e) => r == Err::<CliCommand, CliError>(CliError::InvalidAmount(e)),
                    }
                }
            } else if w[0] == exit_word() {
                r == Ok::<CliCommand, CliError>(CliCommand::Exit)
            } else {
                r == Ok::<CliCommand, CliError>(CliCommand::Unknown)
            }
        }),
{
    let parts = split_words(line);
    let ghost w = words(line@);
    assert(parts@.len() == w.len());
    if parts.len() == 0 {
        return Ok(CliCommand::Empty);
    }
    assert(parts@[0]@ == w[0]);
    let balance = ['b', 'a', 'l', 'a', 'n', 'c', 'e'];
    let send = ['s', 'e', 'n', 'd'];
    let exit = ['e', 'x', 'i', 't'];
    assert(balance@ =~= balance_word());
    assert(send@ =~= send_word());
    assert(exit@ =~= exit_word());
    if chars_match(&parts[0], &balance) {
        Ok(CliCommand::Balance)
    } else if chars_match(&parts[0], &send) {
        if parts.len() != 3 {
            return Ok(CliCommand::SendUsage);
        }
        assert(parts@[1]@ == w[1]);
        assert(parts@[2]@ == w[2]);
        match parse_u64(&parts[2]) {
            Ok(amount) => {
                let mut recipient = String::new();
                let name = &parts[1];
                let mut i: usize = 0;
                while i < name.len()
                    invariant
                        i <= name@.len(),
                        recipient@ == name@.take(i as int),
                    decreases name@.len() - i,
                {
                    push_char(&mut recipient, name[i]);
                    proof {
                        assert(name@.take(i + 1) =~= name@.take(i as int).push(name@[i as int]));
                    }
                    i = i + 1;
                }
                assert(name@.take(name@.len() as int) =~= name@);
                Ok(CliCommand::Send { recipient, amount })
            },
            Err(e) => Err(CliError::InvalidAmount(e)),
        }
    } else if chars_match(&parts[0], &exit) {
        Ok(CliCommand::Exit)
    } else {
        Ok(CliCommand::Unknown)
    }
}

} // verus!
