//! Numbers as text, and lists of texts.

use vstd::prelude::*;

verus! {

/// The character of a decimal digit.
pub open spec fn digit(d: nat) -> char {
    (48 + d) as char
}

/// A number in decimal, without leading zeros.
pub open spec fn decimal(n: nat) -> Seq<char>
    decreases n,
{
    if n < 10 {
        seq![digit(n)]
    } else {
        decimal(n / 10).push(digit(n % 10))
    }
}

/// The texts of `parts`, with `separator` between each two of them.
pub open spec fn joined(parts: Seq<Seq<char>>, separator: Seq<char>) -> Seq<char>
    decreases parts.len(),
{
    if parts.len() == 0 {
        Seq::empty()
    } else if parts.len() == 1 {
        parts[0]
    } else {
        joined(parts.drop_last(), separator) + separator + parts.last()
    }
}

/// The texts of a list of strings.
pub open spec fn texts(parts: Seq<String>) -> Seq<Seq<char>> {
    Seq::new(parts.len(), |i: int| parts[i]@)
}

/// Returns the text of a decimal digit.
fn digit_text(d: usize) -> (text: &'static str)
    requires
        d < 10,
    ensures
        text@ == seq![digit(d as nat)],
{
    proof {
        reveal_strlit("0");
        reveal_strlit("1");
        reveal_strlit("2");
        reveal_strlit("3");
        reveal_strlit("4");
        reveal_strlit("5");
        reveal_strlit("6");
        reveal_strlit("7");
        reveal_strlit("8");
        reveal_strlit("9");
    }
    match d {
        0 => "0",
        1 => "1",
        2 => "2",
        3 => "3",
        4 => "4",
        5 => "5",
        6 => "6",
        7 => "7",
        8 => "8",
        _ => "9",
    }
}

/// Writes a number in decimal.
pub fn decimal_string(n: usize) -> (text: String)
    ensures
        text@ == decimal(n as nat),
    decreases n,
{
    if n < 10 {
        String::from_str(digit_text(n))
    } else {
        let mut text = decimal_string(n / 10);
        text.append(digit_text(n % 10));
        assert(text@ == decimal(n as nat));
        text
    }
}

/// Joins texts with a separator.
pub fn join(parts: &Vec<String>, separator: &str) -> (text: String)
    ensures
        text@ == joined(texts(parts@), separator@),
{
    let mut text = String::new();
    let mut i: usize = 0;
    let ghost all = texts(parts@);
    while i < parts.len()
        invariant
            i <= parts@.len(),
            all == texts(parts@),
            text@ == joined(all.take(i as int), separator@),
        decreases parts@.len() - i,
    {
        if i > 0 {
            text.append(separator);
        }
        text.append(parts[i].as_str());
        proof {
            let more = all.take(i + 1);
            assert(more.drop_last() =~= all.take(i as int));
            assert(more.last() == parts@[i as int]@);
            assert(text@ =~= joined(more, separator@));
        }
        i += 1;
    }
    assert(all.take(i as int) =~= all);
    text
}

/// A number is read back from its decimal text: different numbers have different texts.
pub proof fn lemma_decimal_injective(m: nat, n: nat)
    requires
        decimal(m) == decimal(n),
    ensures
        m == n,
    decreases m,
{
    assert(decimal(m).last() == digit(m % 10));
    assert(decimal(n).last() == digit(n % 10));
    assert(m % 10 == n % 10);
    lemma_decimal_len(m);
    lemma_decimal_len(n);
    if m >= 10 {
        assert(n >= 10);
        assert(decimal(m).drop_last() =~= decimal(m / 10));
        assert(decimal(n).drop_last() =~= decimal(n / 10));
        lemma_decimal_injective(m / 10, n / 10);
    }
}

/// A number has at least one digit, and just one if it is below ten.
proof fn lemma_decimal_len(n: nat)
    ensures
        decimal(n).len() >= 1,
        decimal(n).len() == 1 <==> n < 10,
    decreases n,
{
    if n >= 10 {
        lemma_decimal_len(n / 10);
    }
}

/// A number has at least one digit, and nothing but digits.
pub proof fn lemma_decimal_digits(n: nat)
    ensures
        decimal(n).len() >= 1,
        forall|i: int| 0 <= i < decimal(n).len() ==> '0' <= #[trigger] decimal(n)[i] <= '9',
    decreases n,
{
    if n >= 10 {
        lemma_decimal_digits(n / 10);
        assert forall|i: int| 0 <= i < decimal(n).len() implies '0' <= #[trigger] decimal(n)[i]
            <= '9' by {
            if i < decimal(n).len() - 1 {
                assert(decimal(n)[i] == decimal(n / 10)[i]);
            }
        }
    }
}

/// Whether a text is not empty and does not hold the separator.
pub open spec fn is_part(part: Seq<char>, separator: char) -> bool {
    &&& part.len() > 0
    &&& forall|i: int| 0 <= i < part.len() ==> #[trigger] part[i] != separator
}

/// A list of parts is read back from their joined text.
pub proof fn lemma_joined_injective(a: Seq<Seq<char>>, b: Seq<Seq<char>>, separator: char)
    requires
        forall|i: int| 0 <= i < a.len() ==> is_part(#[trigger] a[i], separator),
        forall|i: int| 0 <= i < b.len() ==> is_part(#[trigger] b[i], separator),
        joined(a, seq![separator]) == joined(b, seq![separator]),
    ensures
        a == b,
    decreases a.len(),
{
    let sep = seq![separator];
    let text = joined(a, sep);
    if a.len() == 0 || b.len() == 0 {
        if a.len() > 0 {
            lemma_joined_ends(a, separator);
        }
        if b.len() > 0 {
            lemma_joined_ends(b, separator);
        }
        assert(a =~= b);
    } else {
        lemma_joined_ends(a, separator);
        lemma_joined_ends(b, separator);
        let la = a.last().len() as int;
        let lb = b.last().len() as int;
        let n = text.len() as int;
        if la < lb {
            assert(text[n - la - 1] == b.last()[lb - la - 1]);
        }
        if lb < la {
            assert(text[n - lb - 1] == a.last()[la - lb - 1]);
        }
        assert(a.last() =~= text.subrange(n - la, n));
        assert(b.last() =~= text.subrange(n - la, n));
        if a.len() == 1 {
            assert(n == la);
            assert(b.len() == 1);
            assert(a =~= b);
        } else {
            assert(b.len() > 1);
            assert(joined(a.drop_last(), sep) =~= text.subrange(0, n - la - 1));
            assert(joined(b.drop_last(), sep) =~= text.subrange(0, n - la - 1));
            lemma_joined_injective(a.drop_last(), b.drop_last(), separator);
            assert(a =~= a.drop_last().push(a.last()));
            assert(b =~= b.drop_last().push(b.last()));
        }
    }
}

/// A character that is in no part and not in the separator is not in the joined text.
pub proof fn lemma_joined_without(parts: Seq<Seq<char>>, separator: Seq<char>, c: char)
    requires
        forall|i: int, j: int|
            0 <= i < parts.len() && 0 <= j < parts[i].len() ==> #[trigger] parts[i][j] != c,
        forall|j: int| 0 <= j < separator.len() ==> #[trigger] separator[j] != c,
    ensures
        forall|j: int|
            0 <= j < joined(parts, separator).len() ==> #[trigger] joined(parts, separator)[j]
                != c,
    decreases parts.len(),
{
    if parts.len() == 1 {
        assert forall|j: int| 0 <= j < parts[0].len() implies #[trigger] parts[0][j] != c by {}
    } else if parts.len() > 1 {
        let init = parts.drop_last();
        assert forall|i: int, j: int|
            0 <= i < init.len() && 0 <= j < init[i].len() implies #[trigger] init[i][j] != c by {
            assert(parts[i][j] != c);
        }
        lemma_joined_without(init, separator, c);
        let before = joined(init, separator);
        let text = joined(parts, separator);
        assert forall|j: int| 0 <= j < text.len() implies #[trigger] text[j] != c by {
            let k = before.len() + separator.len();
            if j < before.len() {
                assert(text[j] == before[j]);
            } else if j < k {
                assert(text[j] == separator[j - before.len()]);
            } else {
                assert(text[j] == parts[parts.len() - 1][j - k]);
            }
        }
    }
}

/// A joined text ends in its last part, and before that stands a separator, if there are more.
proof fn lemma_joined_ends(parts: Seq<Seq<char>>, separator: char)
    requires
        parts.len() > 0,
        is_part(parts.last(), separator),
    ensures
        ({
            let text = joined(parts, seq![separator]);
            let k = parts.last().len();
            &&& text.len() >= k
            &&& forall|i: int|
                0 <= i < k ==> #[trigger] text[text.len() - k + i] == parts.last()[i]
            &&& parts.len() == 1 ==> text.len() == k
            &&& parts.len() > 1 ==> text.len() > k && text[text.len() - k - 1] == separator
        }),
{
}

} // verus!
