use vstd::prelude::*;

verus! {

/// The byte is a blank: a space, a tab, a line feed, a vertical tab, a form
/// feed or a carriage return.
pub open spec fn is_space(b: u8) -> bool {
    b == 32 || (9 <= b && b <= 13)
}

/// The byte is one of the digits `0` to `9`.
pub open spec fn is_digit(b: u8) -> bool {
    48 <= b && b <= 57
}

/// The length of the run of bytes other than blanks with which `s` begins.
pub open spec fn leading_word(s: Seq<u8>) -> nat
    decreases s.len(),
{
    if s.len() > 0 && !is_space(s[0]) {
        1 + leading_word(s.skip(1))
    } else {
        0
    }
}

/// The tokens of a line: its maximal runs of bytes other than blanks, in order.
pub open spec fn tokens(s: Seq<u8>) -> Seq<Seq<u8>>
    decreases s.len(),
{
    if s.len() == 0 {
        Seq::<Seq<u8>>::empty()
    } else if is_space(s[0]) {
        tokens(s.skip(1))
    } else {
        proof {
            lemma_leading_word_le(s);
        }
        seq![s.take(leading_word(s) as int)] + tokens(s.skip(leading_word(s) as int))
    }
}

/// The number that a sequence of digits writes in base ten.
pub open spec fn digits_value(s: Seq<u8>) -> nat
    decreases s.len(),
{
    if s.len() == 0 {
        0
    } else {
        digits_value(s.drop_last()) * 10 + (s.last() - 48) as nat
    }
}

/// The digits of a token: the token without a leading `+`.
pub open spec fn digits_of(token: Seq<u8>) -> Seq<u8> {
    if token.len() > 0 && token[0] == 43 {
        token.skip(1)
    } else {
        token
    }
}

/// The number that a token writes: one or more digits, which a `+` may
/// precede, with a value that fits the machine's word. Any other token writes
/// no number.
pub open spec fn number_of(token: Seq<u8>) -> Option<usize> {
    let d = digits_of(token);
    if d.len() > 0 && (forall|i: int| 0 <= i < d.len() ==> is_digit(#[trigger] d[i]))
        && digits_value(d) <= usize::MAX {
        Some(digits_value(d) as usize)
    } else {
        None
    }
}

/// The tokens as sequences of bytes.
pub open spec fn texts(toks: Seq<Vec<u8>>) -> Seq<Seq<u8>> {
    Seq::new(toks.len(), |i: int| toks[i]@)
}

/// The leading run ends inside the sequence.
pub proof fn lemma_leading_word_le(s: Seq<u8>)
    ensures
        leading_word(s) <= s.len(),
        s.len() > 0 && !is_space(s[0]) ==> leading_word(s) >= 1,
    decreases s.len(),
{
    if s.len() > 0 && !is_space(s[0]) {
        lemma_leading_word_le(s.skip(1));
    }
}

/// A run of `k` bytes other than blanks, at the end of the sequence or before
/// a blank, is the leading run.
pub proof fn lemma_leading_word_is(s: Seq<u8>, k: int)
    requires
        0 <= k <= s.len(),
        forall|j: int| 0 <= j < k ==> !is_space(#[trigger] s[j]),
        k == s.len() || is_space(s[k]),
    ensures
        leading_word(s) == k,
    decreases k,
{
    if k > 0 {
        let t = s.skip(1);
        lemma_leading_word_is(t, k - 1);
    }
}

/// A longer sequence of digits writes at least as large a number.
pub proof fn lemma_digits_value_grows(s: Seq<u8>, i: int)
    requires
        0 <= i <= s.len(),
        forall|j: int| 0 <= j < s.len() ==> is_digit(#[trigger] s[j]),
    ensures
        digits_value(s.take(i)) <= digits_value(s),
    decreases s.len() - i,
{
    if i < s.len() {
        lemma_digits_value_grows(s, i + 1);
        assert(s.take(i + 1).drop_last() =~= s.take(i));
    } else {
        assert(s.take(i) =~= s);
    }
}

/// Says whether a byte is a blank.
pub fn space(b: u8) -> (r: bool)
    ensures
        r == is_space(b),
{
    b == 32 || (9 <= b && b <= 13)
}

/// A copy of the bytes `from..to` of a line.
pub fn copy_range(line: &[u8], from: usize, to: usize) -> (part: Vec<u8>)
    requires
        from <= to <= line@.len(),
    ensures
        part@ == line@.subrange(from as int, to as int),
{
    let mut part: Vec<u8> = Vec::new();
    let mut i = from;
    while i < to
        invariant
            from <= i <= to <= line@.len(),
            part@ == line@.subrange(from as int, i as int),
        decreases to - i,
    {
        part.push(line[i]);
        i += 1;
    }
    part
}

/// Splits a line into its tokens.
pub fn split_tokens(line: &[u8]) -> (toks: Vec<Vec<u8>>)
    ensures
        texts(toks@) == tokens(line@),
{
    let ghost s = line@;
    let mut toks: Vec<Vec<u8>> = Vec::new();
    let mut i: usize = 0;
    assert(s.skip(0) =~= s);
    while i < line.len()
        invariant
            s == line@,
            i <= s.len(),
            tokens(s) == texts(toks@) + tokens(s.skip(i as int)),
        decreases s.len() - i,
    {
        if space(line[i]) {
            assert(s.skip(i as int).skip(1) =~= s.skip(i + 1));
            i += 1;
        } else {
            let start = i;
            while i < line.len() && !space(line[i])
                invariant
                    s == line@,
                    start <= i <= s.len(),
                    forall|j: int| start <= j < i ==> !is_space(#[trigger] s[j]),
                decreases s.len() - i,
            {
                i += 1;
            }
            let word = copy_range(line, start, i);
            toks.push(word);
            proof {
                let t = s.skip(start as int);
                let k = i - start;
                lemma_leading_word_is(t, k);
                assert(t.take(k) =~= s.subrange(start as int, i as int));
                assert(t.skip(k) =~= s.skip(i as int));
            }
        }
    }
    toks
}

/// Reads the number that a token writes.
pub fn parse_number(token: &[u8]) -> (number: Option<usize>)
    ensures
        number == number_of(token@),
{
    let ghost d = digits_of(token@);
    let start: usize = if token.len() > 0 && token[0] == 43 {
        1
    } else {
        0
    };
    if start == token.len() {
        return None;
    }
    let mut value: usize = 0;
    let mut i = start;
    while i < token.len()
        invariant
            d == token@.skip(start as int),
            d == digits_of(token@),
            start <= i <= token@.len(),
            start < token@.len(),
            forall|j: int| 0 <= j < i - start ==> is_digit(#[trigger] d[j]),
            value == digits_value(d.take(i - start)),
        decreases token@.len() - i,
    {
        let b = token[i];
        assert(d[i - start] == b);
        if b < 48 || b > 57 {
            return None;
        }
        let digit = (b - 48) as usize;
        assert(d.take(i - start + 1).drop_last() =~= d.take(i - start));
        let grown = match value.checked_mul(10) {
            Some(tenfold) => tenfold.checked_add(digit),
            None => None,
        };
        match grown {
            Some(sum) => {
                value = sum;
            },
            None => {
                proof {
                    if forall|j: int| 0 <= j < d.len() ==> is_digit(#[trigger] d[j]) {
                        lemma_digits_value_grows(d, i - start + 1);
                    }
                }
                return None;
            },
        }
        i += 1;
    }
    assert(d.take(i - start) =~= d);
    Some(value)
}

} // verus!
