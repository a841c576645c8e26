//! Naming and ordering the segments of a directory.

use vstd::prelude::*;

verus! {

/// The character of a decimal digit.
pub open spec fn digit(d: nat) -> char {
    if d == 0 {
        '0'
    } else if d == 1 {
        '1'
    } else if d == 2 {
        '2'
    } else if d == 3 {
        '3'
    } else if d == 4 {
        '4'
    } else if d == 5 {
        '5'
    } else if d == 6 {
        '6'
    } else if d == 7 {
        '7'
    } else if d == 8 {
        '8'
    } else {
        '9'
    }
}

/// A number in decimal, without leading zeros.
pub open spec fn decimal(n: nat) -> Seq<char>
    decreases n,
{
    if n < 10 {
        seq![digit(n)]
    } else {
        decimal(n / 10).push(digit(n % 10))
    }
}

/// `.log`, which ends the name of every segment file.
pub open spec fn log_suffix() -> Seq<char> {
    seq!['.', 'l', 'o', 'g']
}

/// The file name of the segment of a generation: the generation in
/// decimal, then `.log`.
pub open spec fn log_text(gen: u64) -> Seq<char> {
    decimal(gen as nat) + log_suffix()
}

/// The number that a decimal digit stands for.
pub open spec fn digit_value(c: char) -> Option<nat> {
    if c == '0' {
        Some(0)
    } else if c == '1' {
        Some(1)
    } else if c == '2' {
        Some(2)
    } else if c == '3' {
        Some(3)
    } else if c == '4' {
        Some(4)
    } else if c == '5' {
        Some(5)
    } else if c == '6' {
        Some(6)
    } else if c == '7' {
        Some(7)
    } else if c == '8' {
        Some(8)
    } else if c == '9' {
        Some(9)
    } else {
        None
    }
}

/// The number that a text of digits stands for; a character that is no
/// digit counts as 0.
pub open spec fn value(text: Seq<char>) -> nat
    decreases text.len(),
{
    if text.len() == 0 {
        0
    } else {
        value(text.drop_last()) * 10 + match digit_value(text.last()) {
            Some(d) => d,
            None => 0,
        }
    }
}

/// The decimal form of a number is a text of one digit or more that stands
/// for that number.
pub proof fn lemma_decimal(n: nat)
    ensures
        decimal(n).len() >= 1,
        forall|i: int| 0 <= i < decimal(n).len() ==> digit_value(#[trigger] decimal(n)[i]) is Some,
        value(decimal(n)) == n,
    decreases n,
{
    if n < 10 {
        assert(decimal(n).drop_last() =~= Seq::<char>::empty());
        assert(value(decimal(n).drop_last()) == 0);
        assert(digit_value(digit(n)) == Some(n));
    } else {
        lemma_decimal(n / 10);
        assert(decimal(n).drop_last() =~= decimal(n / 10));
        assert(digit_value(digit(n % 10)) == Some(n % 10));
    }
}

/// A text stands for no less than each of its beginnings.
pub proof fn lemma_value_grows(text: Seq<char>, i: int)
    requires
        0 <= i <= text.len(),
    ensures
        value(text.subrange(0, i)) <= value(text),
    decreases text.len() - i,
{
    if i < text.len() {
        lemma_value_grows(text, i + 1);
        assert(text.subrange(0, i + 1).drop_last() =~= text.subrange(0, i));
    } else {
        assert(text.subrange(0, i) =~= text);
    }
}

/// What the name of a segment file looks like: digits that stand for the
/// generation, then `.log`.
pub proof fn lemma_log_text(name: Seq<char>, gen: u64)
    requires
        name == log_text(gen),
    ensures
        name.len() >= 5,
        name.subrange(0, name.len() - 4) == decimal(gen as nat),
        name[name.len() - 4] == '.',
        name[name.len() - 3] == 'l',
        name[name.len() - 2] == 'o',
        name[name.len() - 1] == 'g',
        forall|i: int| 0 <= i < name.len() - 4 ==> digit_value(#[trigger] name[i]) is Some,
        value(name.subrange(0, name.len() - 4)) == gen,
{
    lemma_decimal(gen as nat);
    let stem = decimal(gen as nat);
    assert(name.subrange(0, name.len() - 4) =~= stem);
    assert forall|i: int| 0 <= i < name.len() - 4 implies digit_value(#[trigger] name[i]) is Some by {
        assert(name[i] == stem[i]);
    }
}

/// The generation of the segment that a file of this name holds; `None`
/// for the name of any other file.
pub open spec fn gen_of_name(name: Seq<char>) -> Option<u64> {
    if exists|g: u64| name == log_text(g) {
        Some(choose|g: u64| name == log_text(g))
    } else {
        None
    }
}

/// A name is that of the segment of generation `g` exactly when it is `g`
/// in decimal followed by `.log`.
pub proof fn lemma_gen_of_name(name: Seq<char>, g: u64)
    ensures
        gen_of_name(name) == Some(g) <==> name == log_text(g),
{
    if name == log_text(g) {
        let c = choose|c: u64| name == log_text(c);
        lemma_log_text(name, g);
        lemma_log_text(name, c);
    }
}

/// The text of one decimal digit.
fn digit_text(d: u64) -> (text: &'static str)
    requires
        d < 10,
    ensures
        text@ == seq![digit(d as nat)],
{
    proof {
        reveal_strlit("0");
        reveal_strlit("1");
        reveal_strlit("2");
        reveal_strlit("3");
        reveal_strlit("4");
        reveal_strlit("5");
        reveal_strlit("6");
        reveal_strlit("7");
        reveal_strlit("8");
        reveal_strlit("9");
    }
    let text = if d == 0 {
        "0"
    } else if d == 1 {
        "1"
    } else if d == 2 {
        "2"
    } else if d == 3 {
        "3"
    } else if d == 4 {
        "4"
    } else if d == 5 {
        "5"
    } else if d == 6 {
        "6"
    } else if d == 7 {
        "7"
    } else if d == 8 {
        "8"
    } else {
        "9"
    };
    assert(text@ =~= seq![digit(d as nat)]);
    text
}

/// A number in decimal, without leading zeros.
pub fn decimal_text(n: u64) -> (text: String)
    ensures
        text@ == decimal(n as nat),
    decreases n,
{
    if n < 10 {
        digit_text(n).to_owned()
    } else {
        let mut text = decimal_text(n / 10);
        text.append(digit_text(n % 10));
        assert(text@ =~= decimal((n / 10) as nat).push(digit((n % 10) as nat)));
        text
    }
}

/// The file name of the segment of generation `gen`: the generation in
/// decimal, then `.log`.
pub fn log_name(gen: u64) -> (name: String)
    ensures
        name@ == log_text(gen),
{
    let mut name = decimal_text(gen);
    proof {
        reveal_strlit(".log");
    }
    assert(".log"@ =~= log_suffix());
    name.append(".log");
    name
}

/// The number that a decimal digit stands for.
fn digit_of(c: char) -> (d: Option<u64>)
    ensures
        match d {
            Some(d) => digit_value(c) == Some(d as nat) && d < 10,
            None => digit_value(c) is None,
        },
{
    if c == '0' {
        Some(0)
    } else if c == '1' {
        Some(1)
    } else if c == '2' {
        Some(2)
    } else if c == '3' {
        Some(3)
    } else if c == '4' {
        Some(4)
    } else if c == '5' {
        Some(5)
    } else if c == '6' {
        Some(6)
    } else if c == '7' {
        Some(7)
    } else if c == '8' {
        Some(8)
    } else if c == '9' {
        Some(9)
    } else {
        None
    }
}

/// The generation of the segment that a file of this name holds: `g` for
/// the name that is `g` in decimal, without a sign or leading zeros,
/// followed by `.log`; `None` for every other name.
pub fn segment_gen(name: &str) -> (gen: Option<u64>)
    ensures
        gen == gen_of_name(name@),
        match gen {
            Some(g) => name@ == log_text(g),
            None => forall|g: u64| name@ != #[trigger] log_text(g),
        },
{
    let n = name.unicode_len();
    if n < 5 || name.get_char(n - 4) != '.' || name.get_char(n - 3) != 'l' || name.get_char(n - 2)
        != 'o' || name.get_char(n - 1) != 'g' {
        proof {
            assert forall|g: u64| name@ != #[trigger] log_text(g) by {
                if name@ == log_text(g) {
                    lemma_log_text(name@, g);
                }
            }
        }
        return None;
    }
    let digits = n - 4;
    let mut acc: u64 = 0;
    let mut i: usize = 0;
    assert(name@.subrange(0, 0) =~= Seq::<char>::empty());
    while i < digits
        invariant
            n == name@.len(),
            digits == n - 4,
            i <= digits,
            acc == value(name@.subrange(0, i as int)),
        decreases digits - i,
    {
        let c = name.get_char(i);
        proof {
            assert(name@.subrange(0, i + 1).drop_last() =~= name@.subrange(0, i as int));
            assert(name@.subrange(0, i + 1).last() == c);
        }
        let d = match digit_of(c) {
            Some(d) => d,
            None => {
                proof {
                    assert forall|g: u64| name@ != #[trigger] log_text(g) by {
                        if name@ == log_text(g) {
                            lemma_log_text(name@, g);
                            assert(digit_value(name@[i as int]) is Some);
                        }
                    }
                }
                return None;
            },
        };
        if acc > (u64::MAX - d) / 10 {
            proof {
                assert forall|g: u64| name@ != #[trigger] log_text(g) by {
                    if name@ == log_text(g) {
                        lemma_log_text(name@, g);
                        let stem = name@.subrange(0, digits as int);
                        lemma_value_grows(stem, i + 1);
                        assert(stem.subrange(0, i + 1) =~= name@.subrange(0, i + 1));
                    }
                }
            }
            return None;
        }
        acc = acc * 10 + d;
        i += 1;
    }
    let expected = log_name(acc);
    let given = name.to_owned();
    if expected == given {
        proof {
            lemma_gen_of_name(name@, acc);
        }
        Some(acc)
    } else {
        proof {
            assert forall|g: u64| name@ != #[trigger] log_text(g) by {
                if name@ == log_text(g) {
                    lemma_log_text(name@, g);
                }
            }
        }
        None
    }
}

/// Each number is less than the next.
pub open spec fn strictly_ascending(gens: Seq<u64>) -> bool {
    forall|a: int, b: int| 0 <= a < b < gens.len() ==> gens[a] < gens[b]
}

/// The generations of the segments among the files of a directory, in
/// ascending order: `g` is listed exactly when a file is named `g` in
/// decimal followed by `.log`. Other names are passed over.
pub fn sorted_gen_list(names: &Vec<String>) -> (sorted: Vec<u64>)
    ensures
        strictly_ascending(sorted@),
        forall|g: u64|
            sorted@.contains(g) <==> exists|i: int|
                0 <= i < names@.len() && (#[trigger] names@[i])@ == log_text(g),
{
    let mut gens: Vec<u64> = Vec::new();
    let mut i: usize = 0;
    while i < names.len()
        invariant
            i <= names@.len(),
            forall|a: int|
                0 <= a < gens@.len() ==> exists|t: int|
                    0 <= t < i && gen_of_name(#[trigger] names@[t]@) == Some(#[trigger] gens@[a]),
            forall|t: int, g: u64|
                0 <= t < i && gen_of_name(#[trigger] names@[t]@) == Some(g) ==> #[trigger] gens@.contains(g),
        decreases names@.len() - i,
    {
        let ghost before = gens@;
        match segment_gen(names[i].as_str()) {
            Some(gen) => {
                gens.push(gen);
                proof {
                    assert(gens@[before.len() as int] == gen);
                    assert forall|a: int| 0 <= a < gens@.len() implies exists|t: int|
                        0 <= t < i + 1 && gen_of_name(#[trigger] names@[t]@) == Some(#[trigger] gens@[a]) by {
                        if a < before.len() {
                            let t = choose|t: int|
                                0 <= t < i && gen_of_name(#[trigger] names@[t]@) == Some(before[a]);
                            assert(gen_of_name(names@[t]@) == Some(gens@[a]));
                        } else {
                            assert(gen_of_name(names@[i as int]@) == Some(gens@[a]));
                        }
                    }
                    assert forall|t: int, g: u64|
                        0 <= t < i + 1 && gen_of_name(#[trigger] names@[t]@) == Some(
                            g,
                        ) implies #[trigger] gens@.contains(g) by {
                        if t < i {
                            assert(before.contains(g));
                            let a = choose|a: int| 0 <= a < before.len() && before[a] == g;
                            assert(gens@[a] == g);
                        }
                    }
                }
            },
            None => {},
        }
        i += 1;
    }
    let sorted = sorted_unique(&gens);
    proof {
        assert forall|g: u64| sorted@.contains(g) implies exists|i: int|
            0 <= i < names@.len() && (#[trigger] names@[i])@ == log_text(g) by {
            assert(gens@.contains(g));
            let a = choose|a: int| 0 <= a < gens@.len() && gens@[a] == g;
            let t = choose|t: int|
                0 <= t < names@.len() && gen_of_name(#[trigger] names@[t]@) == Some(gens@[a]);
            lemma_gen_of_name(names@[t]@, g);
            assert(names@[t]@ == log_text(g));
        }
        assert forall|g: u64|
            (exists|i: int| 0 <= i < names@.len() && (#[trigger] names@[i])@ == log_text(g)) implies sorted@.contains(
            g,
        ) by {
            let t = choose|t: int| 0 <= t < names@.len() && (#[trigger] names@[t])@ == log_text(g);
            lemma_gen_of_name(names@[t]@, g);
            assert(gen_of_name(names@[t]@) == Some(g));
            assert(gens@.contains(g));
        }
    }
    sorted
}

/// The numbers of a list, each once, in ascending order.
pub fn sorted_unique(gens: &Vec<u64>) -> (sorted: Vec<u64>)
    ensures
        strictly_ascending(sorted@),
        forall|g: u64| sorted@.contains(g) <==> gens@.contains(g),
{
    let mut sorted: Vec<u64> = Vec::new();
    let mut i: usize = 0;
    while i < gens.len()
        invariant
            i <= gens@.len(),
            strictly_ascending(sorted@),
            forall|a: int| 0 <= a < sorted@.len() ==> gens@.subrange(0, i as int).contains(#[trigger] sorted@[a]),
            forall|t: int| 0 <= t < i ==> sorted@.contains(#[trigger] gens@[t]),
        decreases gens@.len() - i,
    {
        let x = gens[i];
        let mut j: usize = 0;
        while j < sorted.len() && sorted[j] < x
            invariant
                j <= sorted@.len(),
                forall|a: int| 0 <= a < j ==> sorted@[a] < x,
            decreases sorted@.len() - j,
        {
            j += 1;
        }
        let ghost before = sorted@;
        let ghost seen = gens@.subrange(0, i as int);
        let ghost more = gens@.subrange(0, i + 1);
        proof {
            assert(more[i as int] == x);
            assert forall|a: int| 0 <= a < before.len() implies more.contains(#[trigger] before[a]) by {
                let t = choose|t: int| 0 <= t < seen.len() && seen[t] == before[a];
                assert(more[t] == before[a]);
            }
        }
        if j < sorted.len() && sorted[j] == x {
            assert(sorted@.contains(x));
        } else {
            sorted.insert(j, x);
            proof {
                let after = sorted@;
                assert(after[j as int] == x);
                assert forall|a: int| 0 <= a < after.len() implies more.contains(#[trigger] after[a]) by {
                    if a < j {
                        assert(after[a] == before[a]);
                    } else if a > j {
                        assert(after[a] == before[a - 1]);
                    }
                }
                assert forall|t: int| 0 <= t < i implies after.contains(#[trigger] gens@[t]) by {
                    let a = choose|a: int| 0 <= a < before.len() && before[a] == gens@[t];
                    if a < j {
                        assert(after[a] == gens@[t]);
                    } else {
                        assert(after[a + 1] == gens@[t]);
                    }
                }
                assert forall|a: int, b: int| 0 <= a < b < after.len() implies after[a] < after[b] by {
                    let pa = if a < j { a } else { a - 1 };
                    let pb = if b < j { b } else { b - 1 };
                    if a != j && b != j {
                        assert(before[pa] < before[pb]);
                    } else if a == j {
                        assert(after[b] == before[b - 1]);
                        if j < before.len() {
                            assert(before[j as int] <= before[b - 1]) by {
                                if (j as int) < b - 1 {
                                    assert(before[j as int] < before[b - 1]);
                                }
                            }
                        }
                    } else {
                        assert(after[a] == before[a]);
                    }
                }
            }
        }
        i += 1;
    }
    proof {
        assert(gens@.subrange(0, i as int) =~= gens@);
        assert forall|g: u64| sorted@.contains(g) implies gens@.contains(g) by {
            let a = choose|a: int| 0 <= a < sorted@.len() && sorted@[a] == g;
            assert(gens@.contains(sorted@[a]));
        }
        assert forall|g: u64| gens@.contains(g) implies sorted@.contains(g) by {
            let t = choose|t: int| 0 <= t < gens@.len() && gens@[t] == g;
            assert(sorted@.contains(gens@[t]));
        }
    }
    sorted
}

/// Of the generations found, in their order, those below `oldest`: the
/// segments that a compaction into generation `oldest` has superseded.
pub fn stale_gens(gens: &Vec<u64>, oldest: u64) -> (stale: Vec<u64>)
    ensures
        stale@ == gens@.filter(|g: u64| g < oldest),
{
    let mut stale: Vec<u64> = Vec::new();
    let mut i: usize = 0;
    let ghost below = |g: u64| g < oldest;
    proof {
        reveal(Seq::filter);
        assert(gens@.subrange(0, 0) =~= Seq::<u64>::empty());
    }
    while i < gens.len()
        invariant
            i <= gens@.len(),
            below == |g: u64| g < oldest,
            stale@ == gens@.subrange(0, i as int).filter(below),
        decreases gens@.len() - i,
    {
        proof {
            reveal(Seq::filter);
            assert(gens@.subrange(0, i + 1).drop_last() =~= gens@.subrange(0, i as int));
        }
        if gens[i] < oldest {
            stale.push(gens[i]);
        }
        i += 1;
    }
    assert(gens@.subrange(0, i as int) =~= gens@);
    stale
}

} // verus!
