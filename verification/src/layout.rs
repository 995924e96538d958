use crate::parser::run_len;
use crate::selector::{all_digits, decimal_value, is_digit, migration_id};
use vstd::prelude::*;
use vstd::string::*;

verus! {

/// The name of the script that applies a migration.
pub const MIGRATION_FILE_UP: &'static str = "up.cql";

/// The name of the script that rolls a migration back.
pub const MIGRATION_FILE_DOWN: &'static str = "down.cql";

/// The decimal digit for a number below ten.
pub open spec fn digit_char(d: nat) -> char
    recommends
        d < 10,
{
    (48 + d) as char
}

/// The decimal digits of `n`, without leading zeros.
pub open spec fn decimal_digits(n: nat) -> Seq<char>
    decreases n,
{
    if n < 10 {
        seq![digit_char(n)]
    } else {
        decimal_digits(n / 10).push(digit_char(n % 10))
    }
}

/// The name of the directory of the migration `id` that is called `name`:
/// the id in decimal digits, `_`, and the name.
pub open spec fn dir_name(id: u64, name: Seq<char>) -> Seq<char> {
    decimal_digits(id as nat) + seq!['_'] + name
}

/// The decimal digits of a number spell that number.
pub proof fn lemma_decimal_digits(n: nat)
    ensures
        decimal_digits(n).len() > 0,
        all_digits(decimal_digits(n)),
        decimal_value(decimal_digits(n)) == n,
    decreases n,
{
    if n < 10 {
        assert(decimal_digits(n).drop_last() =~= Seq::<char>::empty());
        assert(decimal_value(decimal_digits(n).drop_last()) == 0);
    } else {
        lemma_decimal_digits(n / 10);
        assert(decimal_digits(n).drop_last() =~= decimal_digits(n / 10));
    }
}

/// Where `stop` stands at the place `k` of `text` and nowhere before it, the
/// run before the first `stop` has the length `k`.
pub proof fn lemma_run_len(text: Seq<char>, stop: char, k: int)
    requires
        0 <= k < text.len(),
        text[k] == stop,
        forall|i: int| 0 <= i < k ==> text[i] != stop,
    ensures
        run_len(text, stop) == k,
    decreases k,
{
    if k > 0 {
        let rest = text.drop_first();
        assert(rest[k - 1] == text[k]);
        assert forall|i: int| 0 <= i < k - 1 implies rest[i] != stop by {
            assert(rest[i] == text[i + 1]);
        }
        lemma_run_len(rest, stop, k - 1);
    }
}

/// A directory that is named after a migration is found again as that
/// migration, whatever the migration is called.
pub proof fn lemma_dir_name_gives_id(id: u64, name: Seq<char>)
    ensures
        migration_id(dir_name(id, name)) == Some(id),
{
    let digits = decimal_digits(id as nat);
    let full = dir_name(id, name);
    lemma_decimal_digits(id as nat);
    assert(full[digits.len() as int] == '_');
    assert forall|i: int| 0 <= i < digits.len() implies full[i] != '_' by {
        assert(full[i] == digits[i]);
        assert(is_digit(digits[i]));
    }
    lemma_run_len(full, '_', digits.len() as int);
    assert(full.take(digits.len() as int) =~= digits);
    assert(is_digit(digits[0]));
}

/// The decimal digit for a number below ten, as a string.
fn digit_str(d: u64) -> (s: &'static str)
    requires
        d < 10,
    ensures
        s@ == seq![digit_char(d as nat)],
{
    proof {
        reveal_strlit("0");
        reveal_strlit("1");
        reveal_strlit("2");
        reveal_strlit("3");
        reveal_strlit("4");
        reveal_strlit("5");
        reveal_strlit("6");
        reveal_strlit("7");
        reveal_strlit("8");
        reveal_strlit("9");
    }
    let s = if d == 0 {
        "0"
    } else if d == 1 {
        "1"
    } else if d == 2 {
        "2"
    } else if d == 3 {
        "3"
    } else if d == 4 {
        "4"
    } else if d == 5 {
        "5"
    } else if d == 6 {
        "6"
    } else if d == 7 {
        "7"
    } else if d == 8 {
        "8"
    } else {
        "9"
    };
    assert(s@ =~= seq![digit_char(d as nat)]);
    s
}

/// Writes `n` in decimal digits behind what `out` holds.
pub fn push_decimal(out: &mut String, n: u64)
    ensures
        final(out)@ == old(out)@ + decimal_digits(n as nat),
    decreases n,
{
    if n >= 10 {
        push_decimal(out, n / 10);
    }
    out.append(digit_str(n % 10));
    assert(out@ =~= old(out)@ + decimal_digits(n as nat));
}

/// The name of the directory for a migration that is created at
/// `unix_seconds` and called `name`.
pub fn migration_dir_name(unix_seconds: u64, name: &str) -> (dir: String)
    ensures
        dir@ == dir_name(unix_seconds, name@),
        migration_id(dir@) == Some(unix_seconds),
{
    let mut dir = String::new();
    push_decimal(&mut dir, unix_seconds);
    dir.append("_");
    dir.append(name);
    proof {
        reveal_strlit("_");
        assert("_"@ =~= seq!['_']);
        assert(dir@ =~= dir_name(unix_seconds, name@));
        lemma_dir_name_gives_id(unix_seconds, name@);
    }
    dir
}

} // verus!
