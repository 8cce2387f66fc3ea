use vstd::prelude::*;

verus! {

/// The characters of a text, one by one.
pub(crate) fn chars_of(text: &str) -> (r: Vec<char>)
    ensures
        r@ == text@,
{
    let mut out: Vec<char> = Vec::new();
    for c in it: text.chars()
        invariant
            it.seq() == text@,
            out@ == it.seq().take(it.index() as int),
    {
        out.push(c);
        assert(it.seq().take(it.index() + 1) == it.seq().take(it.index() as int).push(c));
    }
    assert(text@.take(text@.len() as int) == text@);
    out
}

/// Where the first of the marks stands in the text; the length of the text if it has none
/// of them.
pub open spec fn first_of(text: Seq<char>, marks: Set<char>) -> int
    decreases text.len(),
{
    if text.len() == 0 || marks.contains(text[0]) {
        0
    } else {
        1 + first_of(text.drop_first(), marks)
    }
}

/// Where the first tab of the text stands; the length of the text if it has none.
pub open spec fn first_tab(text: Seq<char>) -> int {
    first_of(text, set!['\t'])
}

/// The `k`-th of the fields that the tabs of the line part, counted from 0; `None` if the
/// line has fewer fields.
pub open spec fn field(line: Seq<char>, k: nat) -> Option<Seq<char>>
    decreases k,
{
    let end = first_tab(line);
    if k == 0 {
        Some(line.take(end))
    } else if end >= line.len() {
        None
    } else {
        field(line.skip(end + 1), (k - 1) as nat)
    }
}

/// Whether the character is a decimal digit.
pub open spec fn is_digit(c: char) -> bool {
    '0' <= c <= '9'
}

/// The number that a decimal digit stands for.
pub open spec fn digit_value(c: char) -> int {
    c as int - '0' as int
}

/// Whether the text holds decimal digits only.
pub open spec fn all_digits(text: Seq<char>) -> bool {
    forall|i: int| 0 <= i < text.len() ==> is_digit(#[trigger] text[i])
}

/// The number that a row of decimal digits writes.
pub open spec fn decimal_value(digits: Seq<char>) -> nat
    decreases digits.len(),
{
    if digits.len() == 0 {
        0
    } else {
        (10 * decimal_value(digits.drop_last()) + digit_value(digits.last())) as nat
    }
}

/// The text without its sign: without a `+` that it begins with or, where `minus` holds,
/// a `-` that it begins with.
pub open spec fn unsigned(text: Seq<char>, minus: bool) -> Seq<char> {
    if text.len() > 0 && (text[0] == '+' || (minus && text[0] == '-')) {
        text.skip(1)
    } else {
        text
    }
}

/// The number that the text writes: decimal digits, which a `+` may precede, with a value
/// of no more than `limit`. `None` for any other text.
pub open spec fn parse_unsigned(text: Seq<char>, limit: nat) -> Option<nat> {
    let digits = unsigned(text, false);
    if digits.len() > 0 && all_digits(digits) && decimal_value(digits) <= limit {
        Some(decimal_value(digits))
    } else {
        None
    }
}

proof fn lemma_first_of(text: Seq<char>, marks: Set<char>, at: int)
    requires
        0 <= at <= text.len(),
        forall|i: int| 0 <= i < at ==> !marks.contains(text[i]),
        at < text.len() ==> marks.contains(text[at]),
    ensures
        first_of(text, marks) == at,
    decreases text.len(),
{
    if at > 0 {
        lemma_first_of(text.drop_first(), marks, at - 1);
    }
}

/// Where the first `a` or `b` stands in `chars[from..to]`; `to` if there is none.
pub(crate) fn find_mark(chars: &Vec<char>, from: usize, to: usize, a: char, b: char) -> (at: usize)
    requires
        from <= to <= chars.len(),
    ensures
        from <= at <= to,
        at - from == first_of(chars@.subrange(from as int, to as int), set![a, b]),
{
    let mut at: usize = from;
    while at < to && chars[at] != a && chars[at] != b
        invariant
            from <= at <= to <= chars.len(),
            forall|i: int| from <= i < at ==> chars[i] != a && chars[i] != b,
        decreases to - at,
    {
        at += 1;
    }
    proof {
        lemma_first_of(chars@.subrange(from as int, to as int), set![a, b], at - from);
    }
    at
}

/// Where the field that begins at `start` ends: at the next tab, or at the end of the
/// line.
fn field_end(chars: &Vec<char>, start: usize) -> (end: usize)
    requires
        start <= chars.len(),
    ensures
        start <= end <= chars.len(),
        end - start == first_tab(chars@.skip(start as int)),
{
    assert(chars@.subrange(start as int, chars.len() as int) == chars@.skip(start as int));
    assert(set!['\t', '\t'] == set!['\t']);
    find_mark(chars, start, chars.len(), '\t', '\t')
}

/// Whether all of `chars[from..to]` are decimal digits.
pub(crate) fn digits_only(chars: &Vec<char>, from: usize, to: usize) -> (r: bool)
    requires
        from <= to <= chars.len(),
    ensures
        r == all_digits(chars@.subrange(from as int, to as int)),
{
    let ghost text = chars@.subrange(from as int, to as int);
    let mut i: usize = from;
    while i < to
        invariant
            from <= i <= to <= chars.len(),
            text == chars@.subrange(from as int, to as int),
            forall|j: int| 0 <= j < i - from ==> is_digit(#[trigger] text[j]),
        decreases to - i,
    {
        let c = chars[i];
        if !('0' <= c && c <= '9') {
            assert(!is_digit(text[i - from]));
            return false;
        }
        i += 1;
    }
    true
}

/// The number that the digits `chars[from..to]` write, but no more than `cap`.
pub(crate) fn decimal_capped(chars: &Vec<char>, from: usize, to: usize, cap: u128) -> (r: u128)
    requires
        from <= to <= chars.len(),
        all_digits(chars@.subrange(from as int, to as int)),
    ensures
        r == if decimal_value(chars@.subrange(from as int, to as int)) < cap {
            decimal_value(chars@.subrange(from as int, to as int))
        } else {
            cap as nat
        },
{
    let ghost text = chars@.subrange(from as int, to as int);
    let mut value: u128 = 0;
    let mut i: usize = from;
    assert(text.take(0) == Seq::<char>::empty());
    while i < to
        invariant
            from <= i <= to <= chars.len(),
            text == chars@.subrange(from as int, to as int),
            all_digits(text),
            value <= cap,
            value == if decimal_value(text.take(i - from)) < cap {
                decimal_value(text.take(i - from))
            } else {
                cap as nat
            },
        decreases to - i,
    {
        let c = chars[i];
        proof {
            assert(text.take(i - from + 1).drop_last() == text.take(i - from));
            assert(text.take(i - from + 1).last() == c);
            assert(is_digit(text[i - from]));
        }
        let digit: u128 = (c as u32 - '0' as u32) as u128;
        if digit > cap || value > (cap - digit) / 10 {
            value = cap;
        } else {
            value = value * 10 + digit;
        }
        i += 1;
    }
    assert(text.take(to - from) == text);
    value
}

/// Where `chars[from..to]` begins once its sign is taken off, and whether it begins with
/// a `-`.
pub(crate) fn after_sign(chars: &Vec<char>, from: usize, to: usize, minus: bool) -> (r: (
    usize,
    bool,
))
    requires
        from <= to <= chars.len(),
    ensures
        from <= r.0 <= to,
        chars@.subrange(r.0 as int, to as int) == unsigned(
            chars@.subrange(from as int, to as int),
            minus,
        ),
        r.1 == (from < to && chars[from as int] == '-'),
        r.1 == (chars@.subrange(from as int, to as int).len() > 0 && chars@.subrange(
            from as int,
            to as int,
        )[0] == '-'),
{
    let ghost text = chars@.subrange(from as int, to as int);
    let negative = from < to && chars[from] == '-';
    let begin: usize = if from < to && (chars[from] == '+' || (minus && chars[from] == '-')) {
        from + 1
    } else {
        from
    };
    proof {
        if from < to {
            assert(text[0] == chars[from as int]);
        }
        assert(unsigned(text, minus) == chars@.subrange(begin as int, to as int));
    }
    (begin, negative)
}

/// Reads `chars[from..to]` as a number of no more than `limit`.
pub(crate) fn read_unsigned(chars: &Vec<char>, from: usize, to: usize, limit: u32) -> (r: Option<
    u32,
>)
    requires
        from <= to <= chars.len(),
    ensures
        match r {
            Some(value) => parse_unsigned(chars@.subrange(from as int, to as int), limit as nat)
                == Some(value as nat),
            None => parse_unsigned(chars@.subrange(from as int, to as int), limit as nat) is None,
        },
{
    let (begin, _) = after_sign(chars, from, to, false);
    if begin == to || !digits_only(chars, begin, to) {
        return None;
    }
    let value = decimal_capped(chars, begin, to, limit as u128 + 1);
    if value <= limit as u128 {
        Some(value as u32)
    } else {
        None
    }
}

/// How the fields that begin at `start` follow from where the first of them ends.
proof fn lemma_field_step(line: Seq<char>, start: int, end: int, k: nat)
    requires
        0 <= start <= end <= line.len(),
        end - start == first_tab(line.skip(start)),
    ensures
        field(line.skip(start), 0) == Some(line.subrange(start, end)),
        k > 0 ==> field(line.skip(start), k) == if end >= line.len() {
            None
        } else {
            field(line.skip(end + 1), (k - 1) as nat)
        },
{
    assert(line.skip(start).take(end - start) == line.subrange(start, end));
    if end < line.len() {
        assert(line.skip(start).skip(end - start + 1) == line.skip(end + 1));
    }
}

/// A line that has no `k`-th field has no field after it.
proof fn lemma_field_none(line: Seq<char>, k: nat)
    requires
        field(line, k) is None,
    ensures
        field(line, k + 1) is None,
    decreases k,
{
    if k > 0 && first_tab(line) < line.len() {
        lemma_field_none(line.skip(first_tab(line) + 1), (k - 1) as nat);
    }
}

/// A line that has no `k`-th field has none from there on.
pub(crate) proof fn lemma_field_missing(line: Seq<char>, k: nat, later: nat)
    requires
        field(line, k) is None,
        k <= later,
    ensures
        field(line, later) is None,
    decreases later - k,
{
    if k < later {
        lemma_field_none(line, k);
        lemma_field_missing(line, k + 1, later);
    }
}

/// Where the `i`-th field begins, given where the fields before it end: at the start of
/// the line, or after the tab that ends the field before.
pub open spec fn field_start(ends: Seq<usize>, i: int) -> int {
    if i == 0 {
        0
    } else {
        ends[i - 1] + 1
    }
}

/// Where the first fields of the line end: those of as many fields as the line has, but of
/// no more than `want`.
pub(crate) fn field_ends(chars: &Vec<char>, want: usize) -> (ends: Vec<usize>)
    ensures
        ends.len() <= want,
        want > 0 ==> ends.len() > 0,
        forall|i: int|
            0 <= i < ends.len() ==> {
                &&& field_start(ends@, i) <= #[trigger] ends[i] <= chars.len()
                &&& field(chars@, i as nat) == Some(
                    chars@.subrange(field_start(ends@, i), ends[i] as int),
                )
            },
        forall|i: int| 0 <= i < ends.len() - 1 ==> #[trigger] ends[i] < ends[i + 1],
        ends.len() < want ==> field(chars@, ends.len() as nat) is None,
{
    let mut ends: Vec<usize> = Vec::new();
    let mut start: usize = 0;
    let mut done = false;
    assert(chars@.skip(0) == chars@);
    while ends.len() < want && !done
        invariant
            ends.len() <= want,
            start <= chars.len(),
            !done ==> start == field_start(ends@, ends.len() as int),
            !done ==> forall|m: nat|
                field(chars@, (ends.len() + m) as nat) == #[trigger] field(
                    chars@.skip(start as int),
                    m,
                ),
            done ==> field(chars@, ends.len() as nat) is None,
            done || want == 0 || ends.len() < want || ends.len() > 0,
            ends.len() == 0 ==> !done,
            forall|i: int|
                0 <= i < ends.len() ==> {
                    &&& field_start(ends@, i) <= #[trigger] ends[i] <= chars.len()
                    &&& field(chars@, i as nat) == Some(
                        chars@.subrange(field_start(ends@, i), ends[i] as int),
                    )
                },
        decreases want - ends.len() + if done { 0int } else { 1int },
    {
        let ghost before = ends@;
        let ghost n = ends.len() as nat;
        let end = field_end(chars, start);
        proof {
            lemma_field_step(chars@, start as int, end as int, 0);
            assert(field(chars@, (n + 0) as nat) == field(chars@.skip(start as int), 0));
        }
        ends.push(end);
        proof {
            assert forall|i: int| 0 <= i < ends.len() implies field_start(ends@, i)
                == field_start(before.push(end), i) by {}
            assert forall|i: int| 0 <= i < before.len() implies field_start(ends@, i)
                == field_start(before, i) && ends[i] == before[i] by {}
        }
        if end == chars.len() {
            proof {
                lemma_field_step(chars@, start as int, end as int, 1);
                assert(field(chars@, (n + 1) as nat) == field(chars@.skip(start as int), 1));
            }
            done = true;
        } else {
            proof {
                assert forall|m: nat|
                    field(chars@, (ends.len() + m) as nat) == #[trigger] field(
                        chars@.skip(end + 1),
                        m,
                    ) by {
                    lemma_field_step(chars@, start as int, end as int, m + 1);
                    assert(field(chars@, (n + (m + 1)) as nat) == field(
                        chars@.skip(start as int),
                        m + 1,
                    ));
                }
            }
            start = end + 1;
        }
    }
    proof {
        assert forall|i: int| 0 <= i < ends.len() - 1 implies #[trigger] ends[i] < ends[i + 1] by {
            assert(field_start(ends@, i + 1) <= ends[i + 1]);
        }
    }
    ends
}

/// Whether `chars[from..to]` begins with the word.
pub(crate) fn begins_with(chars: &Vec<char>, from: usize, to: usize, word: &Vec<char>) -> (r: bool)
    requires
        from <= to <= chars.len(),
    ensures
        r == word@.is_prefix_of(chars@.subrange(from as int, to as int)),
{
    let ghost text = chars@.subrange(from as int, to as int);
    if to - from < word.len() {
        return false;
    }
    let mut i: usize = 0;
    while i < word.len()
        invariant
            i <= word.len() <= to - from,
            from <= to <= chars.len(),
            text == chars@.subrange(from as int, to as int),
            forall|j: int| 0 <= j < i ==> text[j] == word[j],
        decreases word.len() - i,
    {
        if chars[from + i] != word[i] {
            assert(text.subrange(0, word.len() as int)[i as int] != word[i as int]);
            return false;
        }
        i += 1;
    }
    assert(word@ =~= text.subrange(0, word.len() as int));
    true
}

} // verus!
