//! Pieces of text: trimming, splitting, decimal numbers, ASCII case and order.
use vstd::arithmetic::power::pow;
use vstd::prelude::*;

verus! {

/// Why a text is not a decimal number.
#[derive(Clone, Copy, PartialEq, Eq, Debug, Structural)]
pub enum NumberError {
    /// There is nothing in it.
    Empty,
    /// It holds something other than digits after an optional `+`, or only the `+`.
    InvalidDigit,
    /// The number does not fit in 64 bits.
    TooLarge,
}

impl NumberError {
    /// What is wrong, in words.
    pub open spec fn words(self) -> Seq<char> {
        match self {
            NumberError::Empty => "cannot parse integer from empty string"@,
            NumberError::InvalidDigit => "invalid digit found in string"@,
            NumberError::TooLarge => "number too large to fit in target type"@,
        }
    }

    /// What is wrong, in words.
    pub fn message(self) -> (r: &'static str)
        ensures
            r@ == self.words(),
    {
        match self {
            NumberError::Empty => "cannot parse integer from empty string",
            NumberError::InvalidDigit => "invalid digit found in string",
            NumberError::TooLarge => "number too large to fit in target type",
        }
    }
}

/// Whether Unicode counts a character as white space.
pub open spec fn white_space(c: char) -> bool {
    let u = c as u32;
    ||| 0x9 <= u <= 0xd
    ||| u == 0x20
    ||| u == 0x85
    ||| u == 0xa0
    ||| u == 0x1680
    ||| 0x2000 <= u <= 0x200a
    ||| u == 0x2028
    ||| u == 0x2029
    ||| u == 0x202f
    ||| u == 0x205f
    ||| u == 0x3000
}

/// A text without the white space in front.
pub open spec fn trimmed_front(s: Seq<char>) -> Seq<char>
    decreases s.len(),
{
    if s.len() > 0 && white_space(s[0]) {
        trimmed_front(s.drop_first())
    } else {
        s
    }
}

/// A text without the white space at the end.
pub open spec fn trimmed_back(s: Seq<char>) -> Seq<char>
    decreases s.len(),
{
    if s.len() > 0 && white_space(s.last()) {
        trimmed_back(s.drop_last())
    } else {
        s
    }
}

/// A text without the white space around it.
pub open spec fn trimmed(s: Seq<char>) -> Seq<char> {
    trimmed_back(trimmed_front(s))
}

/// The parts of a text between commas: one more than there are commas.
pub open spec fn comma_fields(s: Seq<char>) -> Seq<Seq<char>>
    decreases s.len(),
{
    if s.len() == 0 {
        seq![Seq::empty()]
    } else {
        let before = comma_fields(s.drop_last());
        if s.last() == ',' {
            before.push(Seq::empty())
        } else {
            before.drop_last().push(before.last().push(s.last()))
        }
    }
}

/// The fields that hold more than white space, without what is around them.
pub open spec fn filled(fields: Seq<Seq<char>>) -> Seq<Seq<char>>
    decreases fields.len(),
{
    if fields.len() == 0 {
        Seq::empty()
    } else {
        let before = filled(fields.drop_last());
        let last = trimmed(fields.last());
        if last.len() == 0 {
            before
        } else {
            before.push(last)
        }
    }
}

/// What is in each of several strings.
pub open spec fn texts(v: Seq<String>) -> Seq<Seq<char>> {
    Seq::new(v.len(), |i: int| v[i]@)
}

/// The number that decimal digits stand for, or why they stand for none: what the
/// first character that does not fit in is.
pub open spec fn digits_value(s: Seq<char>) -> Result<nat, NumberError>
    decreases s.len(),
{
    if s.len() == 0 {
        Ok(0)
    } else {
        match digits_value(s.drop_last()) {
            Err(e) => Err(e),
            Ok(v) => if !('0' <= s.last() <= '9') {
                Err(NumberError::InvalidDigit)
            } else {
                let next = 10 * v + (s.last() as nat - '0' as nat) as nat;
                if next > u64::MAX {
                    Err(NumberError::TooLarge)
                } else {
                    Ok(next)
                }
            },
        }
    }
}

/// The number that a text stands for: digits, with an optional `+` before them.
pub open spec fn decimal_value(s: Seq<char>) -> Result<nat, NumberError> {
    if s.len() == 0 {
        Err(NumberError::Empty)
    } else if s == seq!['+'] {
        Err(NumberError::InvalidDigit)
    } else if s[0] == '+' {
        digits_value(s.drop_first())
    } else {
        digits_value(s)
    }
}

/// A character, an ASCII capital turned into its small letter.
pub open spec fn ascii_lower_char(c: char) -> char {
    if 'A' <= c <= 'Z' {
        (c as u32 + 32) as char
    } else {
        c
    }
}

/// A text with its ASCII capitals turned into small letters.
pub open spec fn ascii_lower(s: Seq<char>) -> Seq<char> {
    Seq::new(s.len(), |i: int| ascii_lower_char(s[i]))
}

/// `str::to_ascii_lowercase` of std: a copy with the letters `A` to `Z` turned into
/// `a` to `z` and every other character as it was.
#[verifier::external_body]
pub(crate) fn to_ascii_lowercase(s: &str) -> (r: String)
    ensures
        r@ == ascii_lower(s@),
{
    s.to_ascii_lowercase()
}

/// Whether two texts are the same.
pub fn same_text(a: &str, b: &str) -> (r: bool)
    ensures
        r <==> a@ == b@,
{
    a.to_owned() == b.to_owned()
}

/// Whether Unicode counts a character as white space.
pub fn is_white_space(c: char) -> (r: bool)
    ensures
        r == white_space(c),
{
    let u: u32 = c as u32;
    (0x9 <= u && u <= 0xd) || u == 0x20 || u == 0x85 || u == 0xa0 || u == 0x1680 || (0x2000 <= u
        && u <= 0x200a) || u == 0x2028 || u == 0x2029 || u == 0x202f || u == 0x205f || u == 0x3000
}

/// The text without the white space around it.
pub fn trim(s: &str) -> (r: &str)
    ensures
        r@ == trimmed(s@),
{
    let n: usize = s.unicode_len();
    let mut start: usize = 0;
    assert(s@.subrange(0, n as int) =~= s@);
    while start < n && is_white_space(s.get_char(start))
        invariant
            n == s@.len(),
            start <= n,
            trimmed_front(s@) == trimmed_front(s@.subrange(start as int, n as int)),
        decreases n - start,
    {
        let ghost rest = s@.subrange(start as int, n as int);
        assert(rest.drop_first() =~= s@.subrange(start + 1, n as int));
        start = start + 1;
    }
    let ghost front = s@.subrange(start as int, n as int);
    assert(trimmed_front(s@) == front);
    let mut end: usize = n;
    while end > start && is_white_space(s.get_char(end - 1))
        invariant
            n == s@.len(),
            start <= end <= n,
            trimmed_back(front) == trimmed_back(s@.subrange(start as int, end as int)),
        decreases end,
    {
        let ghost rest = s@.subrange(start as int, end as int);
        assert(rest.last() == s@[end - 1]);
        assert(rest.drop_last() =~= s@.subrange(start as int, end - 1));
        end = end - 1;
    }
    assert(end > start ==> s@.subrange(start as int, end as int).last() == s@[end - 1]);
    s.substring_char(start, end)
}

fn push_filled(out: &mut Vec<String>, field: &str)
    ensures
        texts(final(out)@) == if trimmed(field@).len() == 0 {
            texts(old(out)@)
        } else {
            texts(old(out)@).push(trimmed(field@))
        },
{
    let entry: &str = trim(field);
    if !entry.is_empty() {
        out.push(entry.to_owned());
        assert(texts(out@) =~= texts(old(out)@).push(trimmed(field@)));
    }
}

/// The parts between commas that hold more than white space, without what is around
/// them.
pub fn split_filled(s: &str) -> (r: Vec<String>)
    ensures
        texts(r@) == filled(comma_fields(s@)),
{
    let n: usize = s.unicode_len();
    let mut out: Vec<String> = Vec::new();
    let mut start: usize = 0;
    let mut i: usize = 0;
    let ghost mut done: Seq<Seq<char>> = Seq::empty();
    proof {
        assert(s@.take(0) =~= Seq::empty());
        assert(s@.subrange(0, 0) =~= Seq::empty());
        assert(comma_fields(s@.take(0)) =~= done.push(s@.subrange(0, 0)));
        assert(texts(out@) =~= filled(done));
    }
    while i < n
        invariant
            n == s@.len(),
            start <= i <= n,
            comma_fields(s@.take(i as int)) == done.push(s@.subrange(start as int, i as int)),
            texts(out@) == filled(done),
        decreases n - i,
    {
        let c: char = s.get_char(i);
        let ghost field = s@.subrange(start as int, i as int);
        proof {
            let next = s@.take(i + 1);
            assert(next.drop_last() =~= s@.take(i as int));
            assert(next.last() == c);
            assert(done.push(field).drop_last() =~= done);
            assert(s@.subrange(start as int, i + 1) =~= field.push(c));
            assert(s@.subrange(i + 1, i + 1) =~= Seq::empty());
        }
        if c == ',' {
            push_filled(&mut out, s.substring_char(start, i));
            start = i + 1;
            proof {
                done = done.push(field);
                assert(done.drop_last().push(field) =~= done);
            }
        }
        i = i + 1;
    }
    push_filled(&mut out, s.substring_char(start, n));
    proof {
        let field = s@.subrange(start as int, n as int);
        assert(s@.take(n as int) =~= s@);
        assert(done.push(field).drop_last() =~= done);
    }
    out
}

/// The number that a text stands for, or why it stands for none.
pub fn parse_decimal(s: &str) -> (r: Result<u64, NumberError>)
    ensures
        match r {
            Ok(v) => decimal_value(s@) == Ok::<nat, NumberError>(v as nat),
            Err(e) => decimal_value(s@) == Err::<nat, NumberError>(e),
        },
{
    let n: usize = s.unicode_len();
    if n == 0 {
        return Err(NumberError::Empty);
    }
    let plus: bool = s.get_char(0) == '+';
    if plus && n == 1 {
        assert(s@ =~= seq!['+']);
        return Err(NumberError::InvalidDigit);
    }
    let start: usize = if plus {
        1
    } else {
        0
    };
    let ghost all = s@.subrange(start as int, n as int);
    proof {
        if plus {
            assert(all =~= s@.drop_first());
        } else {
            assert(all =~= s@);
        }
        assert(s@.subrange(start as int, start as int) =~= Seq::empty());
    }
    let mut value: u64 = 0;
    let mut i: usize = start;
    while i < n
        invariant
            n == s@.len(),
            start <= i <= n,
            all == s@.subrange(start as int, n as int),
            decimal_value(s@) == digits_value(all),
            digits_value(s@.subrange(start as int, i as int)) == Ok::<nat, NumberError>(
                value as nat,
            ),
        decreases n - i,
    {
        let c: char = s.get_char(i);
        let ghost upto = s@.subrange(start as int, i + 1);
        assert(upto.drop_last() =~= s@.subrange(start as int, i as int));
        assert(upto.last() == c);
        assert(upto =~= all.take(i + 1 - start));
        if !('0' <= c && c <= '9') {
            proof {
                lemma_prefix_error(all, i + 1 - start);
            }
            return Err(NumberError::InvalidDigit);
        }
        let digit: u64 = c as u64 - '0' as u64;
        if value > (u64::MAX - digit) / 10 {
            proof {
                lemma_prefix_error(all, i + 1 - start);
            }
            return Err(NumberError::TooLarge);
        }
        value = 10 * value + digit;
        i = i + 1;
    }
    Ok(value)
}

/// Trimming leaves neither white space at either end nor anything to trim.
pub proof fn law_trimmed_is_tight(s: Seq<char>)
    ensures
        trimmed(s).len() > 0 ==> !white_space(trimmed(s)[0]) && !white_space(trimmed(s).last()),
        trimmed(trimmed(s)) == trimmed(s),
{
    lemma_front(s);
    lemma_back(trimmed_front(s));
}

proof fn lemma_front(s: Seq<char>)
    ensures
        trimmed_front(s).len() > 0 ==> !white_space(trimmed_front(s)[0]),
        forall|c: char| #[trigger] trimmed_front(s).contains(c) ==> s.contains(c),
    decreases s.len(),
{
    if s.len() > 0 && white_space(s[0]) {
        lemma_front(s.drop_first());
        assert forall|c: char| #[trigger] trimmed_front(s).contains(c) implies s.contains(c) by {
            assert(s.drop_first().contains(c));
            let i = choose|i: int| 0 <= i < s.len() - 1 && s.drop_first()[i] == c;
            assert(s[i + 1] == c);
        }
    }
}

proof fn lemma_back(s: Seq<char>)
    ensures
        trimmed_back(s).len() > 0 ==> !white_space(trimmed_back(s).last()) && trimmed_back(s)[0]
            == s[0],
        forall|c: char| #[trigger] trimmed_back(s).contains(c) ==> s.contains(c),
        trimmed_back(trimmed_back(s)) == trimmed_back(s),
    decreases s.len(),
{
    if s.len() > 0 && white_space(s.last()) {
        lemma_back(s.drop_last());
        assert forall|c: char| #[trigger] trimmed_back(s).contains(c) implies s.contains(c) by {
            assert(s.drop_last().contains(c));
            let i = choose|i: int| 0 <= i < s.len() - 1 && s.drop_last()[i] == c;
            assert(s[i] == c);
        }
    }
}

proof fn lemma_fields_hold_no_comma(s: Seq<char>)
    ensures
        comma_fields(s).len() > 0,
        forall|i: int|
            0 <= i < comma_fields(s).len() ==> !(#[trigger] comma_fields(s)[i]).contains(','),
    decreases s.len(),
{
    let fields = comma_fields(s);
    if s.len() > 0 {
        lemma_fields_hold_no_comma(s.drop_last());
        let before = comma_fields(s.drop_last());
        assert forall|i: int| 0 <= i < fields.len() implies !(#[trigger] fields[i]).contains(',') by {
            if i < fields.len() - 1 {
                assert(fields[i] == before[i]);
            } else if s.last() != ',' {
                let last = before[before.len() - 1];
                assert(fields[i] == last.push(s.last()));
                if fields[i].contains(',') {
                    let k = choose|k: int| 0 <= k < fields[i].len() && fields[i][k] == ',';
                    assert(last[k] == ',');
                }
            }
        }
    }
}

/// Every entry of a split text holds something, holds no comma, and has no white
/// space around it.
pub proof fn law_entries_are_clean(s: Seq<char>, i: int)
    requires
        0 <= i < filled(comma_fields(s)).len(),
    ensures
        ({
            let e = filled(comma_fields(s))[i];
            &&& e.len() > 0
            &&& !e.contains(',')
            &&& !white_space(e[0])
            &&& !white_space(e.last())
        }),
{
    lemma_fields_hold_no_comma(s);
    lemma_filled_are_clean(comma_fields(s), i);
}

proof fn lemma_filled_are_clean(fields: Seq<Seq<char>>, i: int)
    requires
        0 <= i < filled(fields).len(),
        forall|k: int| 0 <= k < fields.len() ==> !(#[trigger] fields[k]).contains(','),
    ensures
        ({
            let e = filled(fields)[i];
            &&& e.len() > 0
            &&& !e.contains(',')
            &&& !white_space(e[0])
            &&& !white_space(e.last())
        }),
    decreases fields.len(),
{
    let last = fields.last();
    if i < filled(fields.drop_last()).len() {
        lemma_filled_are_clean(fields.drop_last(), i);
    } else {
        law_trimmed_is_tight(last);
        lemma_front(last);
        lemma_back(trimmed_front(last));
        if trimmed(last).contains(',') {
            assert(trimmed_front(last).contains(','));
        }
    }
}

/// Digits that stand for no number do not come to stand for one by more digits.
proof fn lemma_prefix_error(s: Seq<char>, k: int)
    requires
        0 <= k <= s.len(),
        digits_value(s.take(k)) is Err,
    ensures
        digits_value(s) == digits_value(s.take(k)),
    decreases s.len() - k,
{
    if k < s.len() {
        assert(s.take(k + 1).drop_last() =~= s.take(k));
        lemma_prefix_error(s, k + 1);
    } else {
        assert(s.take(k) =~= s);
    }
}

/// The characters that count as white space: tab to carriage return, the space, the
/// next-line and no-break controls, and the spaces and separators of Unicode.
pub proof fn law_white_space_characters(c: char)
    ensures
        white_space(c) <==> set![
            0x9u32, 0xau32, 0xbu32, 0xcu32, 0xdu32, 0x20u32, 0x85u32, 0xa0u32, 0x1680u32,
            0x2000u32, 0x2001u32, 0x2002u32, 0x2003u32, 0x2004u32, 0x2005u32, 0x2006u32,
            0x2007u32, 0x2008u32, 0x2009u32, 0x200au32, 0x2028u32, 0x2029u32, 0x202fu32,
            0x205fu32, 0x3000u32
        ].contains(c as u32),
{
}

proof fn lemma_front_is_skipped(s: Seq<char>, i: int)
    requires
        0 <= i <= s.len(),
        forall|k: int| 0 <= k < i ==> white_space(#[trigger] s[k]),
        i < s.len() ==> !white_space(s[i]),
    ensures
        trimmed_front(s) == s.skip(i),
    decreases i,
{
    if i > 0 {
        let rest = s.drop_first();
        assert(white_space(s[0]));
        assert forall|k: int| 0 <= k < i - 1 implies white_space(#[trigger] rest[k]) by {
            assert(white_space(s[k + 1]));
        }
        lemma_front_is_skipped(rest, i - 1);
        assert(rest.skip(i - 1) =~= s.skip(i));
    } else {
        assert(s.skip(0) =~= s);
    }
}

proof fn lemma_back_is_cut(s: Seq<char>, j: int)
    requires
        0 <= j <= s.len(),
        forall|k: int| j <= k < s.len() ==> white_space(#[trigger] s[k]),
        j > 0 ==> !white_space(s[j - 1]),
    ensures
        trimmed_back(s) == s.take(j),
    decreases s.len() - j,
{
    if j < s.len() {
        let rest = s.drop_last();
        assert(white_space(s[s.len() - 1]));
        assert forall|k: int| j <= k < rest.len() implies white_space(#[trigger] rest[k]) by {
            assert(white_space(s[k]));
        }
        lemma_back_is_cut(rest, j);
        assert(rest.take(j) =~= s.take(j));
    } else {
        assert(s.take(j) =~= s);
    }
}

/// Trimming keeps everything from the first character that is not white space to the
/// last: wherever a text is cut so that only white space lies outside, and none at the
/// ends of what lies inside, the inside is what trimming leaves.
pub proof fn law_trimming_keeps_the_inside(s: Seq<char>, i: int, j: int)
    requires
        0 <= i <= j <= s.len(),
        forall|k: int| 0 <= k < i || j <= k < s.len() ==> white_space(#[trigger] s[k]),
        i < j ==> !white_space(s[i]) && !white_space(s[j - 1]),
    ensures
        trimmed(s) == s.subrange(i, j),
{
    if i == j {
        assert forall|k: int| 0 <= k < s.len() implies white_space(#[trigger] s[k]) by {}
        lemma_front_is_skipped(s, s.len() as int);
        assert(s.skip(s.len() as int) =~= Seq::empty());
        assert(s.subrange(i, j) =~= Seq::empty());
    } else {
        lemma_front_is_skipped(s, i);
        let rest = s.skip(i);
        assert forall|k: int| j - i <= k < rest.len() implies white_space(#[trigger] rest[k]) by {
            assert(white_space(s[k + i]));
        }
        lemma_back_is_cut(rest, j - i);
        assert(rest.take(j - i) =~= s.subrange(i, j));
    }
}

/// Every text can be cut so that only white space lies outside, and none at the ends of
/// what lies inside.
proof fn lemma_inside(s: Seq<char>) -> (r: (int, int))
    ensures
        0 <= r.0 <= r.1 <= s.len(),
        forall|k: int| 0 <= k < r.0 || r.1 <= k < s.len() ==> white_space(#[trigger] s[k]),
        r.0 < r.1 ==> !white_space(s[r.0]) && !white_space(s[r.1 - 1]),
        trimmed(s) == s.subrange(r.0, r.1),
        trimmed(s).len() == r.1 - r.0,
    decreases s.len(),
{
    if s.len() == 0 {
        law_trimming_keeps_the_inside(s, 0, 0);
        (0, 0)
    } else {
        let (i, j) = lemma_inside(s.drop_last());
        let before = s.drop_last();
        let n = s.len() as int;
        assert forall|k: int| 0 <= k < i || j <= k < n - 1 implies white_space(#[trigger] s[k]) by {
            assert(before[k] == s[k]);
        }
        let (a, b) = if white_space(s.last()) {
            (i, j)
        } else if i == j {
            (n - 1, n)
        } else {
            (i, n)
        };
        if i < j {
            assert(before[i] == s[i] && before[j - 1] == s[j - 1]);
        }
        assert forall|k: int| 0 <= k < a || b <= k < n implies white_space(#[trigger] s[k]) by {
            if k == n - 1 {
                assert(s[k] == s.last());
            }
        }
        law_trimming_keeps_the_inside(s, a, b);
        (a, b)
    }
}

/// Trimming leaves nothing of a text if and only if there is only white space in it.
pub proof fn law_blank_means_white_space_only(s: Seq<char>)
    ensures
        trimmed(s).len() == 0 <==> (forall|k: int| 0 <= k < s.len() ==> white_space(
            #[trigger] s[k],
        )),
{
    let (i, j) = lemma_inside(s);
    if i < j {
        assert(!white_space(s[i]));
    }
}

/// White space at either end of a text makes no difference to trimming.
proof fn lemma_padding_is_trimmed(s: Seq<char>, c: char)
    requires
        white_space(c),
    ensures
        trimmed(seq![c] + s) == trimmed(s),
        trimmed(s.push(c)) == trimmed(s),
{
    let front = seq![c] + s;
    let back = s.push(c);
    let (i, j) = lemma_inside(s);
    assert forall|k: int| 0 <= k < i + 1 || j + 1 <= k < front.len() implies white_space(
        #[trigger] front[k],
    ) by {
        if k > 0 {
            assert(front[k] == s[k - 1]);
            assert(white_space(s[k - 1]));
        }
    }
    if i < j {
        assert(front[i + 1] == s[i] && front[j] == s[j - 1]);
        assert(back[i] == s[i] && back[j - 1] == s[j - 1]);
    }
    law_trimming_keeps_the_inside(front, i + 1, j + 1);
    assert(front.subrange(i + 1, j + 1) =~= s.subrange(i, j));
    assert forall|k: int| 0 <= k < i || j <= k < back.len() implies white_space(
        #[trigger] back[k],
    ) by {
        if k < s.len() {
            assert(back[k] == s[k]);
            assert(white_space(s[k]));
        }
    }
    law_trimming_keeps_the_inside(back, i, j);
    assert(back.subrange(i, j) =~= s.subrange(i, j));
}

/// A text without a comma is one field, all of it.
pub proof fn law_text_without_comma_is_one_field(s: Seq<char>)
    requires
        !s.contains(','),
    ensures
        comma_fields(s) == seq![s],
    decreases s.len(),
{
    if s.len() > 0 {
        let before = s.drop_last();
        assert(s.last() != ',') by {
            assert(s[s.len() - 1] == s.last());
        }
        if before.contains(',') {
            let k = choose|k: int| 0 <= k < before.len() && before[k] == ',';
            assert(s[k] == ',');
        }
        law_text_without_comma_is_one_field(before);
        assert(before.push(s.last()) =~= s);
        assert(comma_fields(s) =~= seq![s]);
    } else {
        assert(s =~= Seq::empty());
        assert(comma_fields(s) =~= seq![s]);
    }
}

/// The fields of two texts with a comma between them are those of the first, then those
/// of the second.
pub proof fn law_comma_parts_fields(a: Seq<char>, b: Seq<char>)
    ensures
        comma_fields(a + seq![','] + b) == comma_fields(a) + comma_fields(b),
    decreases b.len(),
{
    let s = a + seq![','] + b;
    if b.len() == 0 {
        assert(s.drop_last() =~= a);
        assert(s.last() == ',');
        assert(comma_fields(s) =~= comma_fields(a) + comma_fields(b));
    } else {
        let front = b.drop_last();
        law_comma_parts_fields(a, front);
        lemma_fields_hold_no_comma(front);
        assert(s.drop_last() =~= a + seq![','] + front);
        assert(s.last() == b.last());
        let before = comma_fields(a) + comma_fields(front);
        assert(before.last() == comma_fields(front).last());
        assert(before.drop_last() =~= comma_fields(a) + comma_fields(front).drop_last());
        assert(comma_fields(s) =~= comma_fields(a) + comma_fields(b));
    }
}

/// Texts, one after the other, with a comma between each two.
pub open spec fn joined_by_commas(fields: Seq<Seq<char>>) -> Seq<char>
    decreases fields.len(),
{
    if fields.len() == 0 {
        Seq::empty()
    } else if fields.len() == 1 {
        fields[0]
    } else {
        fields[0] + seq![','] + joined_by_commas(fields.drop_first())
    }
}

/// Splitting loses nothing and makes nothing up: the fields hold no comma, and joined by
/// commas they are the text again.
pub proof fn law_fields_join_to_the_text(s: Seq<char>)
    ensures
        comma_fields(s).len() > 0,
        forall|i: int|
            0 <= i < comma_fields(s).len() ==> !(#[trigger] comma_fields(s)[i]).contains(','),
        joined_by_commas(comma_fields(s)) == s,
    decreases s.len(),
{
    lemma_fields_hold_no_comma(s);
    if s.contains(',') {
        let k = s.index_of_first(',')->0;
        s.index_of_first_ensures(',');
        let a = s.take(k);
        let b = s.skip(k + 1);
        assert(!a.contains(','));
        assert(a + seq![','] + b =~= s);
        law_comma_parts_fields(a, b);
        law_text_without_comma_is_one_field(a);
        law_fields_join_to_the_text(b);
        let fields = comma_fields(s);
        assert(fields[0] == a);
        assert(fields.drop_first() =~= comma_fields(b));
    } else {
        law_text_without_comma_is_one_field(s);
    }
}

/// Whether a field holds more than white space.
pub open spec fn holds_something() -> spec_fn(Seq<char>) -> bool {
    |f: Seq<char>| exists|k: int| 0 <= k < f.len() && !white_space(#[trigger] f[k])
}

/// The entries are all the fields that hold more than white space, each of them once and
/// in their order, trimmed.
pub proof fn law_no_filled_field_is_lost(fields: Seq<Seq<char>>)
    ensures
        filled(fields) == fields.filter(holds_something()).map_values(
            |f: Seq<char>| trimmed(f),
        ),
        filled(fields).len() == fields.filter(holds_something()).len(),
    decreases fields.len(),
{
    reveal(Seq::filter);
    let kept = fields.filter(holds_something());
    if fields.len() > 0 {
        law_no_filled_field_is_lost(fields.drop_last());
        law_blank_means_white_space_only(fields.last());
    }
    assert(filled(fields) =~= kept.map_values(|f: Seq<char>| trimmed(f)));
}

/// Every field that holds more than white space is an entry, trimmed, behind the entries
/// of the fields before it.
pub proof fn law_filled_field_is_an_entry(s: Seq<char>, k: int)
    requires
        0 <= k < comma_fields(s).len(),
        trimmed(comma_fields(s)[k]).len() > 0,
    ensures
        ({
            let fields = comma_fields(s);
            let at = filled(fields.take(k)).len() as int;
            &&& at < filled(fields).len()
            &&& filled(fields)[at] == trimmed(fields[k])
        }),
{
    lemma_entry_at(comma_fields(s), k);
}

proof fn lemma_entry_at(fields: Seq<Seq<char>>, k: int)
    requires
        0 <= k < fields.len(),
        trimmed(fields[k]).len() > 0,
    ensures
        filled(fields.take(k)).len() < filled(fields).len(),
        filled(fields)[filled(fields.take(k)).len() as int] == trimmed(fields[k]),
    decreases fields.len(),
{
    let front = fields.drop_last();
    if k < fields.len() - 1 {
        assert(front.take(k) =~= fields.take(k));
        lemma_entry_at(front, k);
    } else {
        assert(fields.take(k) =~= front);
    }
}

proof fn lemma_filled_parts(a: Seq<Seq<char>>, b: Seq<Seq<char>>)
    ensures
        filled(a + b) == filled(a) + filled(b),
    decreases b.len(),
{
    if b.len() == 0 {
        assert(a + b =~= a);
        assert(filled(a) + filled(b) =~= filled(a));
    } else {
        assert((a + b).drop_last() =~= a + b.drop_last());
        lemma_filled_parts(a, b.drop_last());
        assert(filled(a + b) =~= filled(a) + filled(b));
    }
}

/// The entries of two texts with a comma between them are those of the first, then those
/// of the second; a text without a comma is one entry, or none where it is blank.
pub proof fn law_entries_of_parts(a: Seq<char>, b: Seq<char>)
    ensures
        filled(comma_fields(a + seq![','] + b)) == filled(comma_fields(a)) + filled(
            comma_fields(b),
        ),
        !a.contains(',') ==> filled(comma_fields(a)) == if trimmed(a).len() == 0 {
            Seq::<Seq<char>>::empty()
        } else {
            seq![trimmed(a)]
        },
{
    law_comma_parts_fields(a, b);
    lemma_filled_parts(comma_fields(a), comma_fields(b));
    if !a.contains(',') {
        law_text_without_comma_is_one_field(a);
        reveal_with_fuel(filled, 2);
        assert(seq![a].drop_last() =~= Seq::<Seq<char>>::empty());
        assert(filled(seq![a]) =~= if trimmed(a).len() == 0 {
            Seq::<Seq<char>>::empty()
        } else {
            seq![trimmed(a)]
        });
    }
}

proof fn lemma_filled_alike(f: Seq<Seq<char>>, g: Seq<Seq<char>>)
    requires
        f.len() == g.len(),
        forall|i: int| 0 <= i < f.len() ==> trimmed(#[trigger] f[i]) == trimmed(g[i]),
    ensures
        filled(f) == filled(g),
    decreases f.len(),
{
    if f.len() > 0 {
        let n = f.len() - 1;
        assert(trimmed(f[n]) == trimmed(g[n]));
        assert forall|i: int| 0 <= i < n implies trimmed(#[trigger] f.drop_last()[i]) == trimmed(
            g.drop_last()[i],
        ) by {
            assert(trimmed(f[i]) == trimmed(g[i]));
        }
        lemma_filled_alike(f.drop_last(), g.drop_last());
    }
}

proof fn lemma_fields_behind(s: Seq<char>, c: char)
    requires
        c != ',',
    ensures
        comma_fields(s).len() > 0,
        comma_fields(seq![c] + s) == comma_fields(s).update(0, seq![c] + comma_fields(s)[0]),
    decreases s.len(),
{
    let t = seq![c] + s;
    lemma_fields_hold_no_comma(s);
    if s.len() == 0 {
        assert(t.drop_last() =~= Seq::empty());
        assert(t.last() == c);
        assert(comma_fields(t.drop_last()) =~= seq![Seq::<char>::empty()]);
        assert(Seq::<char>::empty().push(c) =~= seq![c] + Seq::<char>::empty());
        assert(comma_fields(t) =~= comma_fields(s).update(0, seq![c] + comma_fields(s)[0]));
    } else {
        let front = s.drop_last();
        lemma_fields_behind(front, c);
        assert(t.drop_last() =~= seq![c] + front);
        assert(t.last() == s.last());
        let before = comma_fields(front);
        if s.last() != ',' && before.len() == 1 {
            assert((seq![c] + before[0]).push(s.last()) =~= seq![c] + before[0].push(s.last()));
        }
        assert(comma_fields(t) =~= comma_fields(s).update(0, seq![c] + comma_fields(s)[0]));
    }
}

proof fn lemma_padding_adds_no_entry(s: Seq<char>, c: char)
    requires
        white_space(c),
    ensures
        filled(comma_fields(seq![c] + s)) == filled(comma_fields(s)),
        filled(comma_fields(s.push(c))) == filled(comma_fields(s)),
{
    let fields = comma_fields(s);
    lemma_fields_behind(s, c);
    lemma_padding_is_trimmed(fields[0], c);
    lemma_filled_alike(fields.update(0, seq![c] + fields[0]), fields);
    lemma_padding_is_trimmed(fields.last(), c);
    assert(s.push(c).drop_last() =~= s);
    lemma_filled_alike(fields.drop_last().push(fields.last().push(c)), fields);
}

/// White space around a text makes no difference to its entries.
pub proof fn law_trimming_keeps_the_entries(s: Seq<char>)
    ensures
        filled(comma_fields(trimmed(s))) == filled(comma_fields(s)),
{
    lemma_front_keeps_the_entries(s);
    lemma_back_keeps_the_entries(trimmed_front(s));
}

proof fn lemma_front_keeps_the_entries(s: Seq<char>)
    ensures
        filled(comma_fields(trimmed_front(s))) == filled(comma_fields(s)),
    decreases s.len(),
{
    if s.len() > 0 && white_space(s[0]) {
        lemma_front_keeps_the_entries(s.drop_first());
        lemma_padding_adds_no_entry(s.drop_first(), s[0]);
        assert(seq![s[0]] + s.drop_first() =~= s);
    }
}

proof fn lemma_back_keeps_the_entries(s: Seq<char>)
    ensures
        filled(comma_fields(trimmed_back(s))) == filled(comma_fields(s)),
    decreases s.len(),
{
    if s.len() > 0 && white_space(s.last()) {
        lemma_back_keeps_the_entries(s.drop_last());
        lemma_padding_adds_no_entry(s.drop_last(), s.last());
        assert(s.drop_last().push(s.last()) =~= s);
    }
}

/// The texts of several strings are the text of each of them, in their order.
pub proof fn law_texts(v: Seq<String>, i: int)
    ensures
        texts(v).len() == v.len(),
        0 <= i < v.len() ==> texts(v)[i] == v[i]@,
{
}

/// Whether there is nothing but decimal digits in a text.
pub open spec fn only_digits(s: Seq<char>) -> bool {
    forall|i: int| 0 <= i < s.len() ==> 0x30 <= (#[trigger] s[i]) as u32 <= 0x39
}

/// The sum of each digit times the power of ten of its place, the last place being that
/// of the ones.
pub open spec fn place_sum(s: Seq<char>) -> int
    decreases s.len(),
{
    if s.len() == 0 {
        0
    } else {
        (s[0] as u32 - 0x30) * pow(10, (s.len() - 1) as nat) + place_sum(s.drop_first())
    }
}

proof fn lemma_place_sum_step(s: Seq<char>, c: char)
    ensures
        place_sum(s.push(c)) == 10 * place_sum(s) + (c as u32 - 0x30),
    decreases s.len(),
{
    let t = s.push(c);
    reveal(pow);
    if s.len() == 0 {
        reveal_with_fuel(place_sum, 2);
        assert(t.drop_first() =~= Seq::empty());
        assert(pow(10, 0) == 1);
    } else {
        let d = s[0] as u32 - 0x30;
        let n = (s.len() - 1) as nat;
        assert(t.drop_first() =~= s.drop_first().push(c));
        lemma_place_sum_step(s.drop_first(), c);
        assert(pow(10, n + 1) == 10 * pow(10, n));
        assert(d * (10 * pow(10, n)) == 10 * (d * pow(10, n))) by (nonlinear_arith);
    }
}

proof fn lemma_place_sum_grows(s: Seq<char>, k: int)
    requires
        0 <= k <= s.len(),
        only_digits(s),
    ensures
        0 <= place_sum(s.take(k)) <= place_sum(s),
    decreases s.len(),
{
    if s.len() == 0 {
        assert(s.take(k) =~= s);
    } else {
        let front = s.drop_last();
        assert(front.push(s.last()) =~= s);
        assert(s.last() == s[s.len() - 1]);
        lemma_place_sum_step(front, s.last());
        assert(only_digits(front)) by {
            assert forall|i: int| 0 <= i < front.len() implies 0x30 <= (#[trigger] front[i]) as u32
                <= 0x39 by {
                assert(front[i] == s[i]);
            }
        }
        if k == s.len() {
            lemma_place_sum_grows(front, front.len() as int);
            assert(front.take(front.len() as int) =~= front);
            assert(s.take(k) =~= s);
        } else {
            lemma_place_sum_grows(front, k);
            assert(front.take(k) =~= s.take(k));
        }
    }
}

proof fn lemma_code_point(c: char)
    ensures
        c as u32 as int == c as int,
        '0' <= c <= '9' <==> 0x30 <= c as u32 <= 0x39,
{
}

/// Whether reading digits stops at the `k`-th character, with an error.
spec fn stops_at(s: Seq<char>, k: int, e: NumberError) -> bool {
    &&& 0 <= k < s.len()
    &&& only_digits(s.take(k))
    &&& place_sum(s.take(k)) <= u64::MAX
    &&& if 0x30 <= s[k] as u32 <= 0x39 {
        e == NumberError::TooLarge && place_sum(s.take(k + 1)) > u64::MAX
    } else {
        e == NumberError::InvalidDigit
    }
}

proof fn lemma_digits_are_read(s: Seq<char>)
    ensures
        digits_value(s) matches Ok(v) ==> only_digits(s) && v == place_sum(s) && v <= u64::MAX,
        digits_value(s) matches Err(e) ==> exists|k: int| stops_at(s, k, e),
    decreases s.len(),
{
    if s.len() > 0 {
        let front = s.drop_last();
        let n = s.len() - 1;
        let c = s.last();
        lemma_digits_are_read(front);
        lemma_place_sum_step(front, c);
        lemma_code_point(c);
        assert(front.push(c) =~= s);
        assert(s.take(n) =~= front);
        assert(s.take(n + 1) =~= s);
        assert(s[n] == c);
        match digits_value(front) {
            Ok(v) => {
                match digits_value(s) {
                    Ok(_) => {
                        assert forall|i: int| 0 <= i < s.len() implies 0x30 <= (
                        #[trigger] s[i]) as u32 <= 0x39 by {
                            if i < n {
                                assert(s[i] == front[i]);
                            }
                        }
                    },
                    Err(e) => {
                        assert(stops_at(s, n, e));
                    },
                }
            },
            Err(e) => {
                let k = choose|k: int| stops_at(front, k, e);
                assert(front.take(k) =~= s.take(k));
                assert(front.take(k + 1) =~= s.take(k + 1));
                assert(front[k] == s[k]);
                assert(stops_at(s, k, e));
            },
        }
    }
}

/// Digits are a number, in places of ones, tens, hundreds and so on, if and only if they
/// are digits throughout and the number fits in 64 bits. Else they are too large where
/// their beginning is digits that do not fit, and hold something wrong where a
/// character that is no digit comes before that.
pub proof fn law_digits_are_read_by_place(s: Seq<char>)
    ensures
        digits_value(s) is Ok <==> only_digits(s) && place_sum(s) <= u64::MAX,
        digits_value(s) matches Ok(v) ==> v == place_sum(s),
        digits_value(s) == Err::<nat, NumberError>(NumberError::TooLarge) <==> exists|k: int|
            0 <= k <= s.len() && only_digits(#[trigger] s.take(k)) && place_sum(s.take(k))
                > u64::MAX,
        digits_value(s) == Err::<nat, NumberError>(NumberError::InvalidDigit) <==> exists|k: int|
            0 <= k < s.len() && only_digits(#[trigger] s.take(k)) && place_sum(s.take(k))
                <= u64::MAX && !(0x30 <= s[k] as u32 <= 0x39),
        digits_value(s) != Err::<nat, NumberError>(NumberError::Empty),
{
    lemma_digits_are_read(s);
    assert(s.take(s.len() as int) =~= s);
    match digits_value(s) {
        Ok(v) => {
            assert forall|k: int| 0 <= k <= s.len() implies place_sum(#[trigger] s.take(k))
                <= u64::MAX by {
                lemma_place_sum_grows(s, k);
            }
        },
        Err(e) => {
            let k = choose|k: int| stops_at(s, k, e);
            let before = s.take(k);
            let with = s.take(k + 1);
            assert(with =~= before.push(s[k]));
            if e == NumberError::TooLarge {
                assert forall|i: int| 0 <= i < with.len() implies 0x30 <= (
                #[trigger] with[i]) as u32 <= 0x39 by {
                    if i < k {
                        assert(with[i] == before[i]);
                    }
                }
                assert(only_digits(s.take(k + 1)));
                if only_digits(s) {
                    lemma_place_sum_grows(s, k + 1);
                }
                assert forall|j: int|
                    0 <= j < s.len() && only_digits(#[trigger] s.take(j)) && !(0x30 <= s[j] as u32
                        <= 0x39) implies place_sum(s.take(j)) > u64::MAX by {
                    if j <= k {
                        assert(with[j] == s[j]);
                    } else {
                        lemma_place_sum_grows(s.take(j), k + 1);
                        assert(s.take(j).take(k + 1) =~= with);
                    }
                }
            } else {
                assert forall|j: int| 0 <= j <= s.len() && only_digits(#[trigger] s.take(j)) implies
                    place_sum(s.take(j)) <= u64::MAX by {
                    if j <= k {
                        lemma_place_sum_grows(before, j);
                        assert(before.take(j) =~= s.take(j));
                    } else {
                        assert(s.take(j)[k] == s[k]);
                    }
                }
            }
        },
    }
}

/// What a text of decimal digits is read as: with or without a `+` in front, the digits
/// behind it; nothing, and a `+` alone, are no number.
pub proof fn law_sign_is_optional(s: Seq<char>)
    ensures
        decimal_value(s) == Err::<nat, NumberError>(NumberError::Empty) <==> s.len() == 0,
        s.len() > 0 ==> decimal_value(seq!['+'] + s) == digits_value(s),
        s.len() > 0 && s[0] != '+' ==> decimal_value(s) == decimal_value(seq!['+'] + s),
        decimal_value(seq!['+']) == Err::<nat, NumberError>(NumberError::InvalidDigit),
{
    let signed = seq!['+'] + s;
    assert(signed.drop_first() =~= s);
    law_digits_are_read_by_place(s);
    if s.len() > 0 {
        assert(signed.len() != seq!['+'].len());
        law_digits_are_read_by_place(s.drop_first());
    }
    if s.len() > 0 && s[0] != '+' {
        assert(seq!['+'][0] == '+');
    }
}

/// A digit behind a number makes it ten times that and the digit more, or too large;
/// anything else makes it no number; and nothing makes a number of what was none, but
/// for the first character behind nothing or behind a `+`.
pub proof fn law_one_character_more(s: Seq<char>, c: char)
    requires
        s.len() > 0,
        s != seq!['+'],
    ensures
        match decimal_value(s) {
            Ok(v) => decimal_value(s.push(c)) == if !(0x30 <= c as u32 <= 0x39) {
                Err::<nat, NumberError>(NumberError::InvalidDigit)
            } else if 10 * v + (c as u32 - 0x30) > u64::MAX {
                Err::<nat, NumberError>(NumberError::TooLarge)
            } else {
                Ok::<nat, NumberError>((10 * v + (c as u32 - 0x30)) as nat)
            },
            Err(e) => decimal_value(s.push(c)) == Err::<nat, NumberError>(e),
        },
{
    let t = s.push(c);
    assert(t[0] == s[0]);
    assert(t != seq!['+']) by {
        assert(t.len() > 1);
    }
    if s[0] == '+' {
        assert(s.len() > 1) by {
            if s.len() == 1 {
                assert(s =~= seq!['+']);
            }
        }
        assert(t.drop_first().drop_last() =~= s.drop_first());
    } else {
        assert(t.drop_last() =~= s);
    }
}

/// The decimal digits of a number, without zeros in front.
pub open spec fn decimal_text(n: nat) -> Seq<char>
    decreases n,
{
    let last = (0x30 + n % 10) as char;
    if n < 10 {
        seq![last]
    } else {
        decimal_text(n / 10).push(last)
    }
}

/// The decimal digits of every number of 64 bits are read back as that number.
pub proof fn law_numbers_are_read_back(n: u64)
    ensures
        decimal_value(decimal_text(n as nat)) == Ok::<nat, NumberError>(n as nat),
        decimal_value(seq!['+'] + decimal_text(n as nat)) == Ok::<nat, NumberError>(n as nat),
{
    lemma_read_back(n as nat);
    law_sign_is_optional(decimal_text(n as nat));
}

proof fn lemma_read_back(n: nat)
    requires
        n <= u64::MAX,
    ensures
        decimal_text(n).len() > 0,
        decimal_text(n)[0] != '+',
        digits_value(decimal_text(n)) == Ok::<nat, NumberError>(n),
    decreases n,
{
    let s = decimal_text(n);
    let last = (0x30 + n % 10) as char;
    assert(last as u32 == 0x30 + n % 10);
    if n < 10 {
        reveal_with_fuel(digits_value, 2);
        assert(s.drop_last() =~= Seq::empty());
        assert(s.last() == last);
    } else {
        lemma_read_back(n / 10);
        assert(s.drop_last() =~= decimal_text(n / 10));
        assert(s.last() == last);
    }
}

/// Turning capitals into small letters changes the letters `A` to `Z`, each into the
/// letter 32 places on, and nothing else; doing it again changes nothing.
pub proof fn law_ascii_lower(s: Seq<char>, i: int)
    ensures
        ascii_lower(s).len() == s.len(),
        0 <= i < s.len() ==> ascii_lower(s)[i] as u32 == if 0x41 <= s[i] as u32 <= 0x5a {
            s[i] as u32 + 32
        } else {
            s[i] as int
        },
        ascii_lower(ascii_lower(s)) == ascii_lower(s),
{
    assert(ascii_lower(ascii_lower(s)) =~= ascii_lower(s));
}

/// Whether two characters are the same, or one the capital of the other, in ASCII.
pub open spec fn same_letter(a: char, b: char) -> bool {
    ||| a == b
    ||| 0x41 <= a as u32 <= 0x5a && b as u32 == a as u32 + 32
    ||| 0x41 <= b as u32 <= 0x5a && a as u32 == b as u32 + 32
}

/// Whether two texts are the same but for capitals, in ASCII.
pub open spec fn same_but_for_case(a: Seq<char>, b: Seq<char>) -> bool {
    &&& a.len() == b.len()
    &&& forall|i: int| 0 <= i < a.len() ==> same_letter(#[trigger] a[i], b[i])
}

/// Two texts have the same small letters if and only if they are the same but for
/// capitals.
pub proof fn law_lower_case_is_case_alone(a: Seq<char>, b: Seq<char>)
    ensures
        ascii_lower(a) == ascii_lower(b) <==> same_but_for_case(a, b),
{
    let x = ascii_lower(a);
    let y = ascii_lower(b);
    if x == y {
        assert(a.len() == x.len() && b.len() == y.len());
        assert forall|i: int| 0 <= i < a.len() implies same_letter(#[trigger] a[i], b[i]) by {
            law_ascii_lower(a, i);
            law_ascii_lower(b, i);
            assert(x[i] == y[i]);
        }
    }
    if same_but_for_case(a, b) {
        assert forall|i: int| 0 <= i < a.len() implies #[trigger] x[i] == y[i] by {
            law_ascii_lower(a, i);
            law_ascii_lower(b, i);
            assert(same_letter(a[i], b[i]));
        }
        assert(x =~= y);
    }
}

/// The three ways in which a text is no number are told apart by their words.
pub proof fn law_number_errors_have_words(e: NumberError)
    ensures
        e.words() == "cannot parse integer from empty string"@ <==> e == NumberError::Empty,
        e.words() == "invalid digit found in string"@ <==> e == NumberError::InvalidDigit,
        e.words() == "number too large to fit in target type"@ <==> e == NumberError::TooLarge,
{
    reveal_strlit("cannot parse integer from empty string");
    reveal_strlit("invalid digit found in string");
    reveal_strlit("number too large to fit in target type");
    assert("cannot parse integer from empty string"@[0] == 'c');
    assert("invalid digit found in string"@[0] == 'i');
    assert("number too large to fit in target type"@[0] == 'n');
}

} // verus!
