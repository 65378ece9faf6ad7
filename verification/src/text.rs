//! Names, paths and versions are strings; contracts speak of their texts.

use vstd::prelude::*;
use vstd::string::StringExecFns;

verus! {

/// Mathematical model of a name, a path or a version: the text itself.
pub type Text = Seq<char>;

/// The texts of a list of strings, in order.
pub open spec fn texts(list: Seq<String>) -> Seq<Text> {
    Seq::new(list.len(), |i: int| list[i]@)
}

/// Whether two strings hold the same text.
pub fn same_text(a: &String, b: &String) -> (same: bool)
    ensures
        same == (a@ == b@),
{
    *a == *b
}

/// The first place at which `wanted` stands in `list`.
pub fn position(list: &Vec<String>, wanted: &String) -> (found: Option<usize>)
    ensures
        match found {
            Some(i) => {
                &&& i < list.len()
                &&& list[i as int]@ == wanted@
                &&& forall|j: int| 0 <= j < i ==> list[j]@ != wanted@
            },
            None => !texts(list@).contains(wanted@),
        },
{
    let mut i: usize = 0;
    while i < list.len()
        invariant
            i <= list.len(),
            forall|j: int| 0 <= j < i ==> list[j]@ != wanted@,
        decreases list.len() - i,
    {
        if same_text(&list[i], wanted) {
            return Some(i);
        }
        i += 1;
    }
    None
}

/// Whether `wanted` stands in `list`.
pub fn contains_text(list: &Vec<String>, wanted: &String) -> (found: bool)
    ensures
        found == texts(list@).contains(wanted@),
{
    match position(list, wanted) {
        Some(i) => {
            assert(texts(list@)[i as int] == wanted@);
            true
        },
        None => false,
    }
}

/// `head`, then `tail`.
pub fn joined(head: &String, tail: &str) -> (whole: String)
    ensures
        whole@ == head@ + tail@,
{
    let mut whole = head.clone();
    whole.append(tail);
    whole
}

/// The first `upto` texts of a list without repeats: each at the place of
/// its first occurrence.
pub open spec fn first_occurrences(list: Seq<Text>, upto: int) -> Seq<Text>
    decreases upto,
{
    if upto <= 0 {
        Seq::empty()
    } else if first_occurrences(list, upto - 1).contains(list[upto - 1]) {
        first_occurrences(list, upto - 1)
    } else {
        first_occurrences(list, upto - 1).push(list[upto - 1])
    }
}

/// The texts of a list with one more string are the texts of the list with
/// one more text.
pub proof fn lemma_texts_push(list: Seq<String>, last: String)
    ensures
        texts(list.push(last)) == texts(list).push(last@),
{
    assert(texts(list.push(last)) =~= texts(list).push(last@));
}

/// A sequence without repeats, all of whose members stand in `pool`, is no
/// longer than the number of different members of `pool`.
pub proof fn lemma_distinct_members_bounded(list: Seq<Text>, pool: Seq<Text>)
    requires
        list.no_duplicates(),
        forall|i: int| 0 <= i < list.len() ==> pool.contains(#[trigger] list[i]),
    ensures
        list.len() <= pool.to_set().len(),
        pool.to_set().len() <= pool.len(),
{
    list.unique_seq_to_set();
    vstd::seq_lib::seq_to_set_is_finite(pool);
    assert(list.to_set().subset_of(pool.to_set())) by {
        assert forall|t: Text| list.to_set().contains(t) implies pool.to_set().contains(t) by {
            let i = choose|i: int| 0 <= i < list.len() && list[i] == t;
            assert(pool.contains(list[i]));
        }
    }
    vstd::set_lib::lemma_len_subset(list.to_set(), pool.to_set());
    pool.lemma_cardinality_of_set();
}

/// The decimal digit for a number below ten.
pub open spec fn digit(d: nat) -> char {
    if d == 0 {
        '0'
    } else if d == 1 {
        '1'
    } else if d == 2 {
        '2'
    } else if d == 3 {
        '3'
    } else if d == 4 {
        '4'
    } else if d == 5 {
        '5'
    } else if d == 6 {
        '6'
    } else if d == 7 {
        '7'
    } else if d == 8 {
        '8'
    } else {
        '9'
    }
}

/// A number written in decimal digits, without leading zeros.
pub open spec fn decimal(n: nat) -> Text
    decreases n,
{
    if n < 10 {
        seq![digit(n)]
    } else {
        decimal(n / 10).push(digit(n % 10))
    }
}

/// Whether a character is a decimal digit.
pub open spec fn is_digit(c: char) -> bool {
    exists|d: nat| d < 10 && c == #[trigger] digit(d)
}

/// A decimal number has at least one digit, and digits only.
pub proof fn lemma_decimal_digits(n: nat)
    ensures
        decimal(n).len() >= 1,
        forall|i: int| 0 <= i < decimal(n).len() ==> is_digit(#[trigger] decimal(n)[i]),
    decreases n,
{
    if n < 10 {
        assert(decimal(n)[0] == digit(n));
    } else {
        lemma_decimal_digits(n / 10);
        assert(decimal(n).last() == digit(n % 10));
    }
}

/// Different numbers are written differently.
pub proof fn lemma_decimal_differs(a: nat, b: nat)
    requires
        a != b,
    ensures
        decimal(a) != decimal(b),
    decreases a,
{
    if a < 10 && b < 10 {
        assert(decimal(a)[0] == digit(a));
        assert(decimal(b)[0] == digit(b));
    } else if a >= 10 && b >= 10 {
        let front_a = decimal(a / 10);
        let front_b = decimal(b / 10);
        assert(decimal(a).last() == digit(a % 10));
        assert(decimal(b).last() == digit(b % 10));
        assert(decimal(a).drop_last() =~= front_a);
        assert(decimal(b).drop_last() =~= front_b);
        if a / 10 != b / 10 {
            lemma_decimal_differs(a / 10, b / 10);
        } else {
            assert(a % 10 != b % 10);
        }
    } else if a < 10 {
        lemma_decimal_digits(b / 10);
    } else {
        lemma_decimal_digits(a / 10);
    }
}

/// The text of one decimal digit.
fn digit_text(d: u64) -> (text: &'static str)
    requires
        d < 10,
    ensures
        text@ == seq![digit(d as nat)],
{
    proof {
        reveal_strlit("0");
        reveal_strlit("1");
        reveal_strlit("2");
        reveal_strlit("3");
        reveal_strlit("4");
        reveal_strlit("5");
        reveal_strlit("6");
        reveal_strlit("7");
        reveal_strlit("8");
        reveal_strlit("9");
    }
    let text = if d == 0 {
        "0"
    } else if d == 1 {
        "1"
    } else if d == 2 {
        "2"
    } else if d == 3 {
        "3"
    } else if d == 4 {
        "4"
    } else if d == 5 {
        "5"
    } else if d == 6 {
        "6"
    } else if d == 7 {
        "7"
    } else if d == 8 {
        "8"
    } else {
        "9"
    };
    assert(text@ =~= seq![digit(d as nat)]);
    text
}

/// `n` written in decimal digits.
pub fn decimal_text(n: u64) -> (text: String)
    ensures
        text@ == decimal(n as nat),
    decreases n,
{
    if n < 10 {
        digit_text(n).to_string()
    } else {
        let mut text = decimal_text(n / 10);
        text.append(digit_text(n % 10));
        assert(text@ =~= decimal(n as nat));
        text
    }
}

} // verus!
