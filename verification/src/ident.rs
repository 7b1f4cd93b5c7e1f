//! Topic identifiers.
//!
//! An identifier is the owner's name, the sequence number and the timestamp
//! of the call that made the topic, joined by underscores, with both numbers
//! in decimal.

use vstd::prelude::*;
use vstd::string::StringExecFns;

verus! {

/// The character that stands for the decimal digit `d`.
pub open spec fn digit(d: nat) -> char
    recommends
        d < 10,
{
    if d == 0 {
        '0'
    } else if d == 1 {
        '1'
    } else if d == 2 {
        '2'
    } else if d == 3 {
        '3'
    } else if d == 4 {
        '4'
    } else if d == 5 {
        '5'
    } else if d == 6 {
        '6'
    } else if d == 7 {
        '7'
    } else if d == 8 {
        '8'
    } else {
        '9'
    }
}

/// The decimal numeral of `n`, without leading zeros.
pub open spec fn decimal(n: nat) -> Seq<char>
    decreases n,
{
    if n < 10 {
        seq![digit(n)]
    } else {
        decimal(n / 10).push(digit(n % 10))
    }
}

/// The identifier of the topic that `owner` makes at the given sequence
/// number and timestamp.
pub open spec fn topic_id(owner: Seq<char>, sequence: nat, timestamp: nat) -> Seq<char> {
    owner + seq!['_'] + decimal(sequence) + seq!['_'] + decimal(timestamp)
}

/// A numeral is not empty and holds no underscore.
pub proof fn lemma_decimal_has_no_underscore(n: nat)
    ensures
        decimal(n).len() >= 1,
        n >= 10 ==> decimal(n).len() >= 2,
        forall|i: int| 0 <= i < decimal(n).len() ==> decimal(n)[i] != '_',
    decreases n,
{
    if n >= 10 {
        lemma_decimal_has_no_underscore(n / 10);
    }
}

/// Different numbers have different numerals.
pub proof fn lemma_decimal_injective(a: nat, b: nat)
    requires
        decimal(a) == decimal(b),
    ensures
        a == b,
    decreases a,
{
    lemma_decimal_has_no_underscore(a);
    lemma_decimal_has_no_underscore(b);
    if a < 10 && b < 10 {
        assert(decimal(a)[0] == digit(a));
        assert(decimal(b)[0] == digit(b));
    } else if a >= 10 && b >= 10 {
        assert(decimal(a).last() == digit(a % 10));
        assert(decimal(b).last() == digit(b % 10));
        assert(decimal(a).drop_last() =~= decimal(a / 10));
        assert(decimal(b).drop_last() =~= decimal(b / 10));
        lemma_decimal_injective(a / 10, b / 10);
    }
}

/// A text that ends in an underscore and a run of characters without one
/// splits at that underscore in one way only.
proof fn lemma_split_at_last_underscore(
    x1: Seq<char>,
    y1: Seq<char>,
    x2: Seq<char>,
    y2: Seq<char>,
)
    requires
        x1 + seq!['_'] + y1 == x2 + seq!['_'] + y2,
        forall|i: int| 0 <= i < y1.len() ==> y1[i] != '_',
        forall|i: int| 0 <= i < y2.len() ==> y2[i] != '_',
    ensures
        x1 == x2,
        y1 == y2,
{
    let s1 = x1 + seq!['_'] + y1;
    let s2 = x2 + seq!['_'] + y2;
    assert(s1.len() == x1.len() + 1 + y1.len());
    assert(s2.len() == x2.len() + 1 + y2.len());
    if x1.len() < x2.len() {
        let k = x2.len() as int;
        assert(s2[k] == '_');
        assert(s1[k] == y1[k - x1.len() - 1]);
    }
    if x2.len() < x1.len() {
        let k = x1.len() as int;
        assert(s1[k] == '_');
        assert(s2[k] == y2[k - x2.len() - 1]);
    }
    assert(x1.len() == x2.len());
    assert(x1 =~= s1.subrange(0, x1.len() as int));
    assert(x2 =~= s2.subrange(0, x2.len() as int));
    assert(y1 =~= s1.subrange(x1.len() as int + 1, s1.len() as int));
    assert(y2 =~= s2.subrange(x2.len() as int + 1, s2.len() as int));
}

/// Identifiers made from different owners, sequence numbers or timestamps
/// are different.
pub proof fn lemma_topic_ids_distinct(
    owner1: Seq<char>,
    sequence1: nat,
    timestamp1: nat,
    owner2: Seq<char>,
    sequence2: nat,
    timestamp2: nat,
)
    requires
        owner1 != owner2 || sequence1 != sequence2 || timestamp1 != timestamp2,
    ensures
        topic_id(owner1, sequence1, timestamp1) != topic_id(owner2, sequence2, timestamp2),
{
    if topic_id(owner1, sequence1, timestamp1) == topic_id(owner2, sequence2, timestamp2) {
        lemma_decimal_has_no_underscore(sequence1);
        lemma_decimal_has_no_underscore(sequence2);
        lemma_decimal_has_no_underscore(timestamp1);
        lemma_decimal_has_no_underscore(timestamp2);
        lemma_split_at_last_underscore(
            owner1 + seq!['_'] + decimal(sequence1),
            decimal(timestamp1),
            owner2 + seq!['_'] + decimal(sequence2),
            decimal(timestamp2),
        );
        lemma_split_at_last_underscore(
            owner1,
            decimal(sequence1),
            owner2,
            decimal(sequence2),
        );
        lemma_decimal_injective(sequence1, sequence2);
        lemma_decimal_injective(timestamp1, timestamp2);
    }
}

/// The text of one decimal digit.
fn digit_text(d: u64) -> (s: &'static str)
    requires
        d < 10,
    ensures
        s@ == seq![digit(d as nat)],
{
    proof {
        reveal_strlit("0");
        reveal_strlit("1");
        reveal_strlit("2");
        reveal_strlit("3");
        reveal_strlit("4");
        reveal_strlit("5");
        reveal_strlit("6");
        reveal_strlit("7");
        reveal_strlit("8");
        reveal_strlit("9");
    }
    let s = if d == 0 {
        "0"
    } else if d == 1 {
        "1"
    } else if d == 2 {
        "2"
    } else if d == 3 {
        "3"
    } else if d == 4 {
        "4"
    } else if d == 5 {
        "5"
    } else if d == 6 {
        "6"
    } else if d == 7 {
        "7"
    } else if d == 8 {
        "8"
    } else {
        "9"
    };
    assert(s@ =~= seq![digit(d as nat)]);
    s
}

/// Writes the decimal numeral of `n` at the end of `text`.
fn push_decimal(text: &mut String, n: u64)
    ensures
        final(text)@ == old(text)@ + decimal(n as nat),
    decreases n,
{
    if n >= 10 {
        push_decimal(text, n / 10);
    }
    text.append(digit_text(n % 10));
    assert(text@ =~= old(text)@ + decimal(n as nat));
}

/// Makes the identifier of the topic that `owner` creates at the given
/// sequence number and timestamp.
pub fn generate(owner: &str, sequence: u64, timestamp: u64) -> (id: String)
    ensures
        id@ == topic_id(owner@, sequence as nat, timestamp as nat),
{
    proof {
        reveal_strlit("_");
    }
    let mut id = String::from_str(owner);
    id.append("_");
    push_decimal(&mut id, sequence);
    id.append("_");
    push_decimal(&mut id, timestamp);
    assert(id@ =~= topic_id(owner@, sequence as nat, timestamp as nat));
    id
}

} // verus!
