//! How the program is started: its arguments and its settings.

use crate::text::{characters, same_text, texts};
use vstd::prelude::*;
use vstd::string::StringExecFns;

verus! {

/// The number of processors that are used where none is set.
pub const DEFAULT_MAX_CPUS: usize = 4;

/// The access to the directories that are made: for the owner alone.
pub const DIRECTORY_MODE: u32 = 0o700;

/// The access to the database: for the owner alone.
pub const DATABASE_MODE: u32 = 0o600;

/// What the arguments that were read so far say.
#[verifier::ext_equal]
pub struct Arguments {
    pub db: Option<Seq<char>>,
    pub cache: Option<Seq<char>>,
    /// An argument that is not known, at which reading stops.
    pub unknown: Option<Seq<char>>,
}

/// What the arguments `rest` say after `so_far`. Each of the two options takes the argument after
/// it, and the last one of its kind counts.
pub open spec fn arguments_after(so_far: Arguments, rest: Seq<Seq<char>>) -> Arguments
    decreases rest.len(),
{
    if rest.len() == 0 {
        so_far
    } else {
        let value = if rest.len() > 1 {
            Some(rest[1])
        } else {
            None
        };
        let others = if rest.len() > 1 {
            rest.skip(2)
        } else {
            Seq::empty()
        };
        if rest[0] == "--db"@ {
            arguments_after(Arguments { db: value, ..so_far }, others)
        } else if rest[0] == "--cache"@ {
            arguments_after(Arguments { cache: value, ..so_far }, others)
        } else {
            Arguments { unknown: Some(rest[0]), ..so_far }
        }
    }
}

/// What some arguments say.
pub open spec fn arguments(args: Seq<Seq<char>>) -> Arguments {
    arguments_after(Arguments { db: None, cache: None, unknown: None }, args)
}

/// The text of the error about an argument that is not known.
pub open spec fn unknown_argument(arg: Seq<char>) -> Seq<char> {
    "unknown argument: "@ + arg
}

/// The paths of the database and of the model cache that the arguments name, or what is wrong
/// with them.
pub fn parse_args(args: &Vec<String>) -> (r: Result<(String, String), String>)
    ensures
        ({
            let given = arguments(texts(args@));
            match r {
                Ok((db, cache)) => given.unknown is None && given.db == Some(db@) && given.cache
                    == Some(cache@),
                Err(message) => if given.unknown is Some {
                    message@ == unknown_argument(given.unknown->0)
                } else if given.db is None {
                    message@ == "--db is required"@
                } else {
                    given.cache is None && message@ == "--cache is required"@
                },
            }
        }),
{
    let ghost all = texts(args@);
    let mut db: Option<String> = None;
    let mut cache: Option<String> = None;
    let mut at: usize = 0;
    assert(all.skip(0) =~= all);
    while at < args.len()
        invariant
            at <= args.len(),
            all == texts(args@),
            arguments(all) == arguments_after(
                Arguments { db: optional_text(db), cache: optional_text(cache), unknown: None },
                all.skip(at as int),
            ),
        decreases args.len() - at,
    {
        let arg = args[at].as_str();
        let ghost rest = all.skip(at as int);
        assert(rest[0] == arg@);
        let has_value = at + 1 < args.len();
        let value: Option<String> = if has_value {
            Some(args[at + 1].clone())
        } else {
            None
        };
        if same_text(arg, "--db") {
            db = value;
        } else if same_text(arg, "--cache") {
            cache = value;
        } else {
            let mut message = "unknown argument: ".to_string();
            message.append(arg);
            return Err(message);
        }
        if has_value {
            at = at + 2;
            assert(all.skip(at as int) =~= rest.skip(2));
        } else {
            at = at + 1;
            assert(all.skip(at as int) =~= Seq::<Seq<char>>::empty());
        }
    }
    match db {
        None => Err("--db is required".to_string()),
        Some(db_path) => match cache {
            None => Err("--cache is required".to_string()),
            Some(cache_path) => Ok((db_path, cache_path)),
        },
    }
}

/// The text of an optional string.
pub open spec fn optional_text(text: Option<String>) -> Option<Seq<char>> {
    match text {
        Some(t) => Some(t@),
        None => None,
    }
}

/// Whether `c` is a decimal digit.
pub open spec fn is_digit(c: char) -> bool {
    '0' <= c <= '9'
}

/// The number that decimal digits write.
pub open spec fn digits_value(digits: Seq<char>) -> nat
    decreases digits.len(),
{
    if digits.len() == 0 {
        0
    } else {
        10 * digits_value(digits.drop_last()) + if is_digit(digits.last()) {
            (digits.last() as u32 - 48) as nat
        } else {
            0
        }
    }
}

/// The digits of a number, which may have a plus sign before them.
pub open spec fn unsigned_digits(text: Seq<char>) -> Seq<char> {
    if text.len() > 0 && text[0] == '+' {
        text.drop_first()
    } else {
        text
    }
}

/// The number that a text writes, where it writes one that fits.
pub open spec fn parsed_number(text: Seq<char>) -> Option<usize> {
    let digits = unsigned_digits(text);
    if digits.len() > 0 && (forall|i: int| 0 <= i < digits.len() ==> is_digit(#[trigger] digits[i]))
        && digits_value(digits) <= usize::MAX {
        Some(digits_value(digits) as usize)
    } else {
        None
    }
}

/// More digits never write a smaller number.
proof fn digits_value_grows(digits: Seq<char>, n: int)
    requires
        0 <= n <= digits.len(),
    ensures
        digits_value(digits.take(n)) <= digits_value(digits),
    decreases digits.len() - n,
{
    if n < digits.len() {
        digits_value_grows(digits, n + 1);
        assert(digits.take(n + 1).drop_last() =~= digits.take(n));
    } else {
        assert(digits.take(n) =~= digits);
    }
}

/// The number that `text` writes, where it writes one that fits.
pub fn parse_number(text: &str) -> (r: Option<usize>)
    ensures
        r == parsed_number(text@),
{
    let chars = characters(text);
    let ghost digits = unsigned_digits(chars@);
    let start: usize = if chars.len() > 0 && chars[0] == '+' {
        1
    } else {
        0
    };
    assert(digits =~= chars@.skip(start as int));
    if start == chars.len() {
        return None;
    }
    let mut value: usize = 0;
    let mut i: usize = start;
    while i < chars.len()
        invariant
            start <= i <= chars.len(),
            digits == unsigned_digits(text@),
            digits == chars@.skip(start as int),
            digits.len() > 0,
            value == digits_value(digits.take(i - start)),
            forall|j: int| 0 <= j < i - start ==> is_digit(#[trigger] digits[j]),
        decreases chars.len() - i,
    {
        let c = chars[i];
        assert(digits[i - start] == c);
        if !('0' <= c && c <= '9') {
            return None;
        }
        let d: usize = (c as u32 - 48) as usize;
        proof {
            let more = digits.take(i - start + 1);
            assert(more.drop_last() =~= digits.take(i - start));
            assert(more.last() == c);
            digits_value_grows(digits, i - start + 1);
        }
        value = match value.checked_mul(10) {
            Some(tens) => match tens.checked_add(d) {
                Some(sum) => sum,
                None => {
                    return None;
                },
            },
            None => {
                return None;
            },
        };
        i = i + 1;
    }
    assert(digits.take(i - start) =~= digits);
    Some(value)
}

/// The number of processors that a setting allows.
pub open spec fn cpus_allowed(setting: Option<Seq<char>>) -> usize {
    match setting {
        Some(text) => match parsed_number(text) {
            Some(n) => if n > 0 {
                n
            } else {
                DEFAULT_MAX_CPUS
            },
            None => DEFAULT_MAX_CPUS,
        },
        None => DEFAULT_MAX_CPUS,
    }
}

/// The number of processors that `setting` allows: a positive number, or the default where it is
/// none.
pub fn max_cpus(setting: Option<&str>) -> (r: usize)
    ensures
        r == cpus_allowed(
            match setting {
                Some(text) => Some(text@),
                None => None,
            },
        ),
{
    match setting {
        Some(text) => match parse_number(text) {
            Some(n) => if n > 0 {
                n
            } else {
                DEFAULT_MAX_CPUS
            },
            None => DEFAULT_MAX_CPUS,
        },
        None => DEFAULT_MAX_CPUS,
    }
}

/// Whether `setting` asks for the embedder that needs no model.
pub fn wants_hash_embedder(setting: Option<&str>) -> (r: bool)
    ensures
        r == (setting is Some && setting->0@ == "hash"@),
{
    match setting {
        Some(text) => same_text(text, "hash"),
        None => false,
    }
}

/// The number of processors that are marked.
pub open spec fn marked(cpus: Seq<bool>) -> nat
    decreases cpus.len(),
{
    if cpus.len() == 0 {
        0
    } else {
        marked(cpus.drop_last()) + if cpus.last() {
            1nat
        } else {
            0nat
        }
    }
}

/// The processors to be used: of those available the first ones, up to `max_cpus`; none where
/// none would be left.
pub fn limit_cpu_affinity(available: &Vec<bool>, max_cpus: usize) -> (r: Option<Vec<bool>>)
    ensures
        match r {
            Some(limited) => {
                &&& max_cpus > 0
                &&& marked(available@) > 0
                &&& limited.len() == available.len()
                &&& forall|i: int|
                    0 <= i < available.len() ==> #[trigger] limited@[i] == (available@[i] && marked(
                        available@.take(i),
                    ) < max_cpus)
            },
            None => max_cpus == 0 || marked(available@) == 0,
        },
{
    let mut limited: Vec<bool> = Vec::new();
    let mut seen: usize = 0;
    let mut selected: usize = 0;
    let mut i: usize = 0;
    while i < available.len()
        invariant
            i <= available.len(),
            limited.len() == i,
            seen <= i,
            seen == marked(available@.take(i as int)),
            selected == if seen <= max_cpus {
                seen
            } else {
                max_cpus
            },
            forall|j: int|
                0 <= j < i ==> #[trigger] limited@[j] == (available@[j] && marked(
                    available@.take(j),
                ) < max_cpus),
        decreases available.len() - i,
    {
        assert(available@.take(i + 1).drop_last() =~= available@.take(i as int));
        if available[i] {
            if selected < max_cpus {
                limited.push(true);
                selected = selected + 1;
            } else {
                limited.push(false);
            }
            seen = seen + 1;
        } else {
            limited.push(false);
        }
        i = i + 1;
    }
    assert(available@.take(i as int) =~= available@);
    if selected == 0 {
        None
    } else {
        Some(limited)
    }
}

/// No more processors are used than allowed, and as many as there are where these are not more.
pub proof fn limited_cpus_are_as_many_as_allowed(
    available: Seq<bool>,
    limited: Seq<bool>,
    max_cpus: nat,
)
    requires
        limited.len() == available.len(),
        forall|i: int|
            0 <= i < available.len() ==> #[trigger] limited[i] == (available[i] && marked(
                available.take(i),
            ) < max_cpus),
    ensures
        marked(limited) == if marked(available) <= max_cpus {
            marked(available)
        } else {
            max_cpus
        },
    decreases available.len(),
{
    if available.len() > 0 {
        let front = available.drop_last();
        let last = available.len() - 1;
        assert forall|i: int| 0 <= i < front.len() implies #[trigger] limited.drop_last()[i] == (
        front[i] && marked(front.take(i)) < max_cpus) by {
            assert(limited[i] == (available[i] && marked(available.take(i)) < max_cpus));
            assert(front.take(i) =~= available.take(i));
        }
        limited_cpus_are_as_many_as_allowed(front, limited.drop_last(), max_cpus);
        assert(available.take(last) =~= front);
        assert(limited[last] == (available[last] && marked(front) < max_cpus));
    }
}

/// Options with their values as they are given: `--db` for those that are marked, else `--cache`.
pub open spec fn given(options: Seq<(bool, Seq<char>)>) -> Seq<Seq<char>> {
    Seq::new(
        2 * options.len(),
        |i: int|
            if i % 2 == 1 {
                options[i / 2].1
            } else if options[i / 2].0 {
                "--db"@
            } else {
                "--cache"@
            },
    )
}

/// What the options say so far, with one more.
spec fn with_option(so_far: Arguments, option: (bool, Seq<char>)) -> Arguments {
    if option.0 {
        Arguments { db: Some(option.1), ..so_far }
    } else {
        Arguments { cache: Some(option.1), ..so_far }
    }
}

/// What options say one after the other.
spec fn with_options(options: Seq<(bool, Seq<char>)>) -> Arguments
    decreases options.len(),
{
    if options.len() == 0 {
        Arguments { db: None, cache: None, unknown: None }
    } else {
        with_option(with_options(options.drop_last()), options.last())
    }
}

proof fn the_options_differ()
    ensures
        "--db"@ != "--cache"@,
{
    reveal_strlit("--db");
    reveal_strlit("--cache");
    assert("--db"@.len() == 4);
    assert("--cache"@.len() == 7);
}

proof fn options_are_read_first(options: Seq<(bool, Seq<char>)>, rest: Seq<Seq<char>>)
    ensures
        arguments(given(options) + rest) == arguments_after(with_options(options), rest),
    decreases options.len(),
{
    if options.len() == 0 {
        assert(given(options) + rest =~= rest);
    } else {
        let front = options.drop_last();
        let option = options.last();
        let name = if option.0 {
            "--db"@
        } else {
            "--cache"@
        };
        let more = seq![name, option.1] + rest;
        assert(given(options) + rest =~= given(front) + more) by {
            let n = 2 * front.len();
            assert forall|i: int| 0 <= i < (given(options) + rest).len() implies (given(options)
                + rest)[i] == (given(front) + more)[i] by {
                if i < n {
                    assert(options[i / 2] == front[i / 2]);
                } else if i == n {
                    assert(i / 2 == front.len() && i % 2 == 0);
                } else if i == n + 1 {
                    assert(i / 2 == front.len() && i % 2 == 1);
                }
            }
        }
        options_are_read_first(front, more);
        the_options_differ();
        assert(more[0] == name && more[1] == option.1);
        assert(more.skip(2) =~= rest);
    }
}

proof fn last_option_counts(options: Seq<(bool, Seq<char>)>, k: int)
    requires
        0 <= k < options.len(),
        forall|m: int| k < m < options.len() ==> (#[trigger] options[m]).0 != options[k].0,
    ensures
        options[k].0 ==> with_options(options).db == Some(options[k].1),
        !options[k].0 ==> with_options(options).cache == Some(options[k].1),
    decreases options.len(),
{
    if k < options.len() - 1 {
        let front = options.drop_last();
        assert forall|m: int| k < m < front.len() implies (#[trigger] front[m]).0
            != front[k].0 by {
            assert(options[m].0 != options[k].0);
        }
        last_option_counts(front, k);
        assert(options[options.len() - 1].0 != options[k].0);
    }
}

proof fn missing_option_is_none(options: Seq<(bool, Seq<char>)>, name: bool)
    requires
        forall|m: int| 0 <= m < options.len() ==> (#[trigger] options[m]).0 != name,
    ensures
        name ==> with_options(options).db is None,
        !name ==> with_options(options).cache is None,
    decreases options.len(),
{
    if options.len() > 0 {
        let front = options.drop_last();
        assert forall|m: int| 0 <= m < front.len() implies (#[trigger] front[m]).0 != name by {
            assert(options[m].0 != name);
        }
        missing_option_is_none(front, name);
        assert(options[options.len() - 1].0 != name);
    }
}

proof fn options_are_known(options: Seq<(bool, Seq<char>)>)
    ensures
        with_options(options).unknown is None,
    decreases options.len(),
{
    if options.len() > 0 {
        options_are_known(options.drop_last());
    }
}

/// However many options are given, the last one of its kind counts, with its whole value.
pub proof fn last_option_of_its_kind_counts(options: Seq<(bool, Seq<char>)>, k: int)
    requires
        0 <= k < options.len(),
        forall|m: int| k < m < options.len() ==> (#[trigger] options[m]).0 != options[k].0,
    ensures
        options[k].0 ==> arguments(given(options)).db == Some(options[k].1),
        !options[k].0 ==> arguments(given(options)).cache == Some(options[k].1),
        arguments(given(options)).unknown is None,
{
    options_are_read_first(options, Seq::empty());
    assert(given(options) + Seq::empty() =~= given(options));
    last_option_counts(options, k);
    options_are_known(options);
}

/// An option that is not given is missing.
pub proof fn option_that_is_not_given_is_missing(options: Seq<(bool, Seq<char>)>, name: bool)
    requires
        forall|m: int| 0 <= m < options.len() ==> (#[trigger] options[m]).0 != name,
    ensures
        name ==> arguments(given(options)).db is None,
        !name ==> arguments(given(options)).cache is None,
{
    options_are_read_first(options, Seq::empty());
    assert(given(options) + Seq::empty() =~= given(options));
    missing_option_is_none(options, name);
}

/// An option at the end without a value is missing, whatever was given before; the other one is as
/// before.
pub proof fn option_without_value_is_missing(options: Seq<(bool, Seq<char>)>)
    ensures
        arguments(given(options).push("--db"@)).db is None,
        arguments(given(options).push("--db"@)).cache == arguments(given(options)).cache,
        arguments(given(options).push("--cache"@)).cache is None,
        arguments(given(options).push("--cache"@)).db == arguments(given(options)).db,
        arguments(given(options).push("--db"@)).unknown is None,
        arguments(given(options).push("--cache"@)).unknown is None,
{
    the_options_differ();
    options_are_known(options);
    options_are_read_first(options, Seq::empty());
    assert(given(options) + Seq::empty() =~= given(options));
    options_are_read_first(options, seq!["--db"@]);
    assert(given(options) + seq!["--db"@] =~= given(options).push("--db"@));
    options_are_read_first(options, seq!["--cache"@]);
    assert(given(options) + seq!["--cache"@] =~= given(options).push("--cache"@));
    let none = Seq::<Seq<char>>::empty();
    let so_far = with_options(options);
    assert(seq!["--db"@][0] == "--db"@ && seq!["--cache"@][0] == "--cache"@);
    assert(arguments_after(so_far, seq!["--db"@]) == arguments_after(
        Arguments { db: None, ..so_far },
        none,
    ));
    assert(arguments_after(so_far, seq!["--cache"@]) == arguments_after(
        Arguments { cache: None, ..so_far },
        none,
    ));
}

/// Anything else where an option should stand is refused by its whole name, whatever comes before and
/// after.
pub proof fn other_arguments_are_unknown(
    options: Seq<(bool, Seq<char>)>,
    other: Seq<char>,
    rest: Seq<Seq<char>>,
)
    requires
        other != "--db"@,
        other != "--cache"@,
    ensures
        arguments(given(options) + (seq![other] + rest)).unknown == Some(other),
        unknown_argument(other).take(18) == "unknown argument: "@,
        unknown_argument(other).skip(18) == other,
{
    options_are_read_first(options, seq![other] + rest);
    assert((seq![other] + rest)[0] == other);
    reveal_strlit("unknown argument: ");
    assert("unknown argument: "@.len() == 18);
    assert(unknown_argument(other).take(18) =~= "unknown argument: "@);
    assert(unknown_argument(other).skip(18) =~= other);
}

/// A number as it is written: without leading zeros.
pub open spec fn decimal(n: nat) -> Seq<char>
    decreases n,
{
    let last = ('0' as u32 + n % 10) as char;
    if n < 10 {
        seq![last]
    } else {
        decimal(n / 10).push(last)
    }
}

proof fn decimal_is_digits(n: nat)
    ensures
        decimal(n).len() > 0,
        forall|i: int| 0 <= i < decimal(n).len() ==> is_digit(#[trigger] decimal(n)[i]),
        digits_value(decimal(n)) == n,
    decreases n,
{
    let text = decimal(n);
    if n < 10 {
        assert(text.drop_last() =~= Seq::empty());
        assert(digits_value(text.drop_last()) == 0);
        assert(is_digit(text.last()));
    } else {
        decimal_is_digits(n / 10);
        assert(text.drop_last() =~= decimal(n / 10));
        assert(is_digit(text.last()));
    }
}

/// A digit in front counts nothing where it is zero.
proof fn zero_in_front_counts_nothing(digits: Seq<char>)
    ensures
        digits_value(seq!['0'] + digits) == digits_value(digits),
    decreases digits.len(),
{
    let text = seq!['0'] + digits;
    if digits.len() == 0 {
        assert(text.drop_last() =~= Seq::empty());
        assert(digits_value(text.drop_last()) == 0);
        assert(text.last() == '0');
    } else {
        assert(text.drop_last() =~= seq!['0'] + digits.drop_last());
        zero_in_front_counts_nothing(digits.drop_last());
    }
}

/// Every number that fits is read as it is written, also with a plus sign or a zero before it, and
/// none that does not fit.
pub proof fn written_numbers_are_read(n: nat)
    ensures
        n <= usize::MAX ==> {
            &&& parsed_number(decimal(n)) == Some(n as usize)
            &&& parsed_number(seq!['+'] + decimal(n)) == Some(n as usize)
            &&& parsed_number(seq!['0'] + decimal(n)) == Some(n as usize)
        },
        n > usize::MAX ==> parsed_number(decimal(n)) is None,
{
    let text = decimal(n);
    decimal_is_digits(n);
    assert(is_digit(text[0]));
    let signed = seq!['+'] + text;
    assert(signed.drop_first() =~= text);
    let padded = seq!['0'] + text;
    zero_in_front_counts_nothing(text);
    assert forall|i: int| 0 <= i < padded.len() implies is_digit(#[trigger] padded[i]) by {
        if i > 0 {
            assert(padded[i] == text[i - 1]);
        }
    }
}

/// No text is read as a number in which something else than a digit stands, but for a plus sign in
/// front; nor one without digits.
pub proof fn other_texts_are_no_numbers(text: Seq<char>, i: int)
    requires
        0 <= i < text.len(),
        !('0' <= text[i] <= '9'),
        i > 0 || text[i] != '+' || text.len() == 1,
    ensures
        parsed_number(text) is None,
        parsed_number(Seq::empty()) is None,
{
    let digits = unsigned_digits(text);
    if text[0] == '+' {
        if i > 0 {
            assert(digits[i - 1] == text[i]);
        }
    } else {
        assert(digits[i] == text[i]);
    }
}

/// Any positive number of processors that is set is allowed; without a setting, with zero, or with
/// what is no number, there are four.
pub proof fn any_positive_number_of_cpus_is_allowed(n: nat, text: Seq<char>)
    ensures
        1 <= n <= usize::MAX ==> cpus_allowed(Some(decimal(n))) == n,
        cpus_allowed(Some(decimal(0))) == 4,
        parsed_number(text) is None ==> cpus_allowed(Some(text)) == 4,
        cpus_allowed(None) == 4,
{
    written_numbers_are_read(n);
    written_numbers_are_read(0);
}

/// Processors are counted one by one.
pub proof fn marked_cpus_are_counted(cpus: Seq<bool>)
    ensures
        marked(cpus) == cpus.filter(|c: bool| c).len(),
    decreases cpus.len(),
{
    reveal(Seq::filter);
    if cpus.len() > 0 {
        marked_cpus_are_counted(cpus.drop_last());
    }
}

} // verus!
