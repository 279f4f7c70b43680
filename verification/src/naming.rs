//! Names of the archives: `<base>_<index>.zip`.

use vstd::prelude::*;
use vstd::string::StringExecFns;

verus! {

/// The character of the decimal digit `d`.
pub open spec fn digit_char(d: int) -> char {
    if d == 0 {
        '0'
    } else if d == 1 {
        '1'
    } else if d == 2 {
        '2'
    } else if d == 3 {
        '3'
    } else if d == 4 {
        '4'
    } else if d == 5 {
        '5'
    } else if d == 6 {
        '6'
    } else if d == 7 {
        '7'
    } else if d == 8 {
        '8'
    } else {
        '9'
    }
}

/// The decimal numeral of `n`, most significant digit first, without
/// leading zeros.
pub open spec fn decimal(n: nat) -> Seq<char>
    decreases n,
{
    if n < 10 {
        seq![digit_char(n as int)]
    } else {
        decimal(n / 10).push(digit_char((n % 10) as int))
    }
}

/// The file name of the archive of group `index` under the destination's
/// base name `base`.
pub open spec fn archive_name_of(base: Seq<char>, index: nat) -> Seq<char> {
    base + seq!['_'] + decimal(index) + seq!['.', 'z', 'i', 'p']
}

/// A numeral is never empty.
pub proof fn lemma_decimal_nonempty(n: nat)
    ensures
        decimal(n).len() >= 1,
    decreases n,
{
    if n >= 10 {
        lemma_decimal_nonempty(n / 10);
    }
}

/// Different numbers have different numerals.
pub proof fn lemma_decimal_injective(a: nat, b: nat)
    requires
        decimal(a) == decimal(b),
    ensures
        a == b,
    decreases a,
{
    lemma_decimal_nonempty(a / 10);
    lemma_decimal_nonempty(b / 10);
    if a < 10 && b < 10 {
        assert(decimal(a)[0] == digit_char(a as int));
        assert(decimal(b)[0] == digit_char(b as int));
    } else if a >= 10 && b >= 10 {
        let da = decimal(a / 10);
        let db = decimal(b / 10);
        assert(decimal(a).last() == digit_char((a % 10) as int));
        assert(decimal(b).last() == digit_char((b % 10) as int));
        assert(da == decimal(a).drop_last());
        assert(db == decimal(b).drop_last());
        lemma_decimal_injective(a / 10, b / 10);
    } else if a < 10 {
        assert(decimal(a).len() == 1);
        assert(decimal(b).len() == decimal(b / 10).len() + 1);
    } else {
        assert(decimal(b).len() == 1);
        assert(decimal(a).len() == decimal(a / 10).len() + 1);
    }
}

/// Archive names tell the groups apart: under one base name, two groups
/// have the same archive name only if they are the same group.
pub proof fn lemma_archive_name_injective(base: Seq<char>, i: nat, j: nat)
    requires
        archive_name_of(base, i) == archive_name_of(base, j),
    ensures
        i == j,
{
    let head = base + seq!['_'];
    let tail = seq!['.', 'z', 'i', 'p'];
    let a = archive_name_of(base, i);
    let b = archive_name_of(base, j);
    assert(a.len() == head.len() + decimal(i).len() + 4);
    assert(b.len() == head.len() + decimal(j).len() + 4);
    assert(decimal(i) == a.subrange(head.len() as int, a.len() - 4));
    assert(decimal(j) == b.subrange(head.len() as int, b.len() - 4));
    lemma_decimal_injective(i, j);
}

/// The digit `d` as text.
fn digit_text(d: usize) -> (text: &'static str)
    requires
        d < 10,
    ensures
        text@ == seq![digit_char(d as int)],
{
    proof {
        reveal_strlit("0");
        reveal_strlit("1");
        reveal_strlit("2");
        reveal_strlit("3");
        reveal_strlit("4");
        reveal_strlit("5");
        reveal_strlit("6");
        reveal_strlit("7");
        reveal_strlit("8");
        reveal_strlit("9");
    }
    let text = if d == 0 {
        "0"
    } else if d == 1 {
        "1"
    } else if d == 2 {
        "2"
    } else if d == 3 {
        "3"
    } else if d == 4 {
        "4"
    } else if d == 5 {
        "5"
    } else if d == 6 {
        "6"
    } else if d == 7 {
        "7"
    } else if d == 8 {
        "8"
    } else {
        "9"
    };
    assert(text@ =~= seq![digit_char(d as int)]);
    text
}

/// Appends the decimal numeral of `n` to `text`.
fn push_decimal(text: &mut String, n: usize)
    ensures
        final(text)@ == old(text)@ + decimal(n as nat),
    decreases n,
{
    if n >= 10 {
        push_decimal(text, n / 10);
    }
    text.append(digit_text(n % 10));
}

/// The file name of the archive that holds group `index`:
/// the base name, an underscore, the index in decimal, and `.zip`.
pub fn archive_name(base: &str, index: usize) -> (name: String)
    ensures
        name@ == archive_name_of(base@, index as nat),
{
    proof {
        reveal_strlit("_");
        reveal_strlit(".zip");
    }
    let mut name = String::from_str(base);
    name.append("_");
    push_decimal(&mut name, index);
    name.append(".zip");
    assert(name@ =~= archive_name_of(base@, index as nat));
    name
}

} // verus!
