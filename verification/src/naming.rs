//! Deterministic names: decimal numbers, task names, thread identifiers.

use vstd::prelude::*;
use vstd::string::*;

verus! {

/// The character that stands for a single decimal digit.
pub open spec fn digit(d: nat) -> char {
    if d == 0 {
        '0'
    } else if d == 1 {
        '1'
    } else if d == 2 {
        '2'
    } else if d == 3 {
        '3'
    } else if d == 4 {
        '4'
    } else if d == 5 {
        '5'
    } else if d == 6 {
        '6'
    } else if d == 7 {
        '7'
    } else if d == 8 {
        '8'
    } else {
        '9'
    }
}

/// The decimal numeral of `n`, most significant digit first, without
/// leading zeros.
pub open spec fn decimal(n: nat) -> Seq<char>
    decreases n,
{
    if n < 10 {
        seq![digit(n)]
    } else {
        decimal(n / 10).push(digit(n % 10))
    }
}

/// The name of the `n`-th task of the group called `identity`.
pub open spec fn task_name(identity: Seq<char>, n: nat) -> Seq<char> {
    identity + seq![':'] + decimal(n)
}

/// The identifier of a thread of process `process`: the process number, a
/// colon, and the thread's name, or `fallback` where it has none.
pub open spec fn thread_label(process: nat, name: Option<Seq<char>>, fallback: Seq<char>) -> Seq<
    char,
> {
    decimal(process) + seq![':'] + match name {
        Some(n) => n,
        None => fallback,
    }
}

/// Distinct digits are written with distinct characters.
pub proof fn lemma_digit_injective(a: nat, b: nat)
    requires
        a < 10,
        b < 10,
        digit(a) == digit(b),
    ensures
        a == b,
{
}

/// A numeral has at least one digit, and at least two from ten on.
pub proof fn lemma_decimal_len(n: nat)
    ensures
        decimal(n).len() >= 1,
        n >= 10 ==> decimal(n).len() >= 2,
    decreases n,
{
    if n >= 10 {
        lemma_decimal_len(n / 10);
    }
}

/// Distinct numbers have distinct numerals.
pub proof fn lemma_decimal_injective(a: nat, b: nat)
    requires
        decimal(a) == decimal(b),
    ensures
        a == b,
    decreases a,
{
    lemma_decimal_len(a);
    lemma_decimal_len(b);
    if a < 10 && b < 10 {
        assert(decimal(a)[0] == digit(a));
        assert(decimal(b)[0] == digit(b));
        lemma_digit_injective(a, b);
    } else if a >= 10 && b >= 10 {
        let da = decimal(a / 10);
        let db = decimal(b / 10);
        assert(decimal(a).last() == decimal(b).last());
        assert(da.push(digit(a % 10)).last() == digit(a % 10));
        assert(db.push(digit(b % 10)).last() == digit(b % 10));
        lemma_digit_injective(a % 10, b % 10);
        assert(da =~= decimal(a).drop_last());
        assert(db =~= decimal(b).drop_last());
        lemma_decimal_injective(a / 10, b / 10);
    }
}

/// Within one group, distinct task numbers give distinct task names.
pub proof fn lemma_task_name_injective(identity: Seq<char>, a: nat, b: nat)
    requires
        task_name(identity, a) == task_name(identity, b),
    ensures
        a == b,
{
    let p = identity + seq![':'];
    let na = task_name(identity, a);
    let nb = task_name(identity, b);
    assert(decimal(a) =~= na.subrange(p.len() as int, na.len() as int));
    assert(decimal(b) =~= nb.subrange(p.len() as int, nb.len() as int));
    lemma_decimal_len(a);
    lemma_decimal_len(b);
    assert(na.len() == p.len() + decimal(a).len());
    assert(nb.len() == p.len() + decimal(b).len());
    lemma_decimal_injective(a, b);
}

fn digit_text(d: usize) -> (text: &'static str)
    requires
        d < 10,
    ensures
        text@ == seq![digit(d as nat)],
{
    proof {
        reveal_strlit("0");
        reveal_strlit("1");
        reveal_strlit("2");
        reveal_strlit("3");
        reveal_strlit("4");
        reveal_strlit("5");
        reveal_strlit("6");
        reveal_strlit("7");
        reveal_strlit("8");
        reveal_strlit("9");
    }
    let text = if d == 0 {
        "0"
    } else if d == 1 {
        "1"
    } else if d == 2 {
        "2"
    } else if d == 3 {
        "3"
    } else if d == 4 {
        "4"
    } else if d == 5 {
        "5"
    } else if d == 6 {
        "6"
    } else if d == 7 {
        "7"
    } else if d == 8 {
        "8"
    } else {
        "9"
    };
    assert(text@ =~= seq![digit(d as nat)]);
    text
}

/// Writes `n` in decimal.
pub fn decimal_text(n: usize) -> (text: String)
    ensures
        text@ == decimal(n as nat),
    decreases n,
{
    if n < 10 {
        String::from_str(digit_text(n))
    } else {
        let mut text = decimal_text(n / 10);
        text.append(digit_text(n % 10));
        assert(text@ =~= decimal(n as nat));
        text
    }
}

/// The name under which the `n`-th task of the group `identity` runs:
/// `"<identity>:<n>"`.
pub fn name_task(identity: &str, n: usize) -> (name: String)
    ensures
        name@ == task_name(identity@, n as nat),
{
    proof {
        reveal_strlit(":");
    }
    let mut name = String::from_str(identity);
    name.append(":");
    let number = decimal_text(n);
    name.append(number.as_str());
    assert(name@ =~= task_name(identity@, n as nat));
    name
}

/// A deterministic identifier for a thread: the number of the process that
/// owns it, a colon, and the thread's name. A thread without a name is
/// identified by `fallback`, its generic per-thread identifier.
pub fn thread_id(process: u32, name: Option<String>, fallback: String) -> (id: String)
    ensures
        id@ == thread_label(
            process as nat,
            match name {
                Some(n) => Some(n@),
                None => None,
            },
            fallback@,
        ),
{
    proof {
        reveal_strlit(":");
    }
    let mut id = decimal_text(process as usize);
    id.append(":");
    match name {
        Some(n) => {
            id.append(n.as_str());
        },
        None => {
            id.append(fallback.as_str());
        },
    }
    assert(id@ =~= thread_label(
        process as nat,
        match name {
            Some(n) => Some(n@),
            None => None,
        },
        fallback@,
    ));
    id
}

} // verus!
