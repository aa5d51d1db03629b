use vstd::prelude::*;
use vstd::string::*;

verus! {

/// Minimum number of digits in a file name; shorter ids are padded with zeros.
pub const NAME_WIDTH: usize = 3;

pub open spec fn is_digit(c: char) -> bool {
    '0' <= c && c <= '9'
}

pub open spec fn digit_value(c: char) -> nat {
    (c as int - '0' as int) as nat
}

pub open spec fn digit_char(d: nat) -> char {
    if d == 0 {
        '0'
    } else if d == 1 {
        '1'
    } else if d == 2 {
        '2'
    } else if d == 3 {
        '3'
    } else if d == 4 {
        '4'
    } else if d == 5 {
        '5'
    } else if d == 6 {
        '6'
    } else if d == 7 {
        '7'
    } else if d == 8 {
        '8'
    } else {
        '9'
    }
}

pub open spec fn all_digits(s: Seq<char>) -> bool {
    forall|i: int| 0 <= i < s.len() ==> is_digit(#[trigger] s[i])
}

pub open spec fn pow10(n: nat) -> nat
    decreases n,
{
    if n == 0 {
        1
    } else {
        10 * pow10((n - 1) as nat)
    }
}

/// The number that a string of decimal digits denotes, most significant first.
pub open spec fn decimal_value(s: Seq<char>) -> nat
    decreases s.len(),
{
    if s.len() == 0 {
        0
    } else {
        decimal_value(s.drop_last()) * 10 + digit_value(s.last())
    }
}

/// The shortest decimal spelling of `n`.
pub open spec fn decimal_digits(n: nat) -> Seq<char>
    decreases n,
{
    if n < 10 {
        seq![digit_char(n)]
    } else {
        decimal_digits(n / 10).push(digit_char(n % 10))
    }
}

/// The decimal spelling of `n`, padded with leading zeros to `NAME_WIDTH`.
pub open spec fn padded_digits(n: nat) -> Seq<char> {
    let d = decimal_digits(n);
    if d.len() < NAME_WIDTH {
        Seq::new((NAME_WIDTH - d.len()) as nat, |i: int| '0') + d
    } else {
        d
    }
}

pub open spec fn log_extension() -> Seq<char> {
    seq!['.', 'l', 'o', 'g']
}

/// The name of the file that holds sequence id `id`, e.g. `007.log`.
pub open spec fn log_file_name(id: nat) -> Seq<char> {
    padded_digits(id) + log_extension()
}

/// The sequence id that a file name denotes, if it is one of the rotator's:
/// the name is a non-empty run of decimal digits followed by `.log`, and the
/// number fits in a `usize`.
pub open spec fn id_of_name(name: Seq<char>) -> Option<usize> {
    if name.len() > 4 && name.subrange(name.len() - 4, name.len() as int) == log_extension() {
        let stem = name.subrange(0, name.len() - 4);
        if all_digits(stem) && decimal_value(stem) <= usize::MAX {
            Some(decimal_value(stem) as usize)
        } else {
            None
        }
    } else {
        None
    }
}

pub proof fn lemma_decimal_value_append(a: Seq<char>, b: Seq<char>)
    ensures
        decimal_value(a + b) == decimal_value(a) * pow10(b.len()) + decimal_value(b),
    decreases b.len(),
{
    if b.len() == 0 {
        assert(a + b =~= a);
        assert(pow10(0) == 1);
        assert(decimal_value(b) == 0);
        assert(decimal_value(a) * 1 == decimal_value(a));
    } else {
        lemma_decimal_value_append(a, b.drop_last());
        assert((a + b).drop_last() =~= a + b.drop_last());
        assert((a + b).last() == b.last());
        let x = decimal_value(a);
        let p = pow10((b.len() - 1) as nat);
        let y = decimal_value(b.drop_last());
        assert(decimal_value(a + b) == decimal_value(a + b.drop_last()) * 10 + digit_value(
            b.last(),
        ));
        assert(decimal_value(b) == y * 10 + digit_value(b.last()));
        assert(pow10(b.len()) == 10 * p);
        assert(decimal_value(a + b.drop_last()) == x * p + y);
        assert((x * p + y) * 10 == x * (10 * p) + y * 10) by (nonlinear_arith);
        assert(decimal_value(a + b) == x * pow10(b.len()) + decimal_value(b));
    }
}

pub proof fn lemma_decimal_value_zeros(k: nat)
    ensures
        decimal_value(Seq::new(k, |i: int| '0')) == 0,
    decreases k,
{
    if k > 0 {
        lemma_decimal_value_zeros((k - 1) as nat);
        assert(Seq::new(k, |i: int| '0').drop_last() =~= Seq::new((k - 1) as nat, |i: int| '0'));
    }
}

pub proof fn lemma_pow10_positive(n: nat)
    ensures
        pow10(n) >= 1,
    decreases n,
{
    if n > 0 {
        lemma_pow10_positive((n - 1) as nat);
    }
}

/// A prefix of a digit string never denotes more than the whole string.
pub proof fn lemma_decimal_value_prefix(s: Seq<char>, i: int)
    requires
        0 <= i <= s.len(),
    ensures
        decimal_value(s.take(i)) <= decimal_value(s),
{
    lemma_decimal_value_append(s.take(i), s.skip(i));
    assert(s.take(i) + s.skip(i) =~= s);
    lemma_pow10_positive((s.len() - i) as nat);
    let x = decimal_value(s.take(i));
    let p = pow10((s.len() - i) as nat);
    assert(x * p >= x) by (nonlinear_arith)
        requires
            p >= 1,
    ;
}

pub proof fn lemma_decimal_digits(n: nat)
    ensures
        all_digits(decimal_digits(n)),
        decimal_value(decimal_digits(n)) == n,
        1 <= decimal_digits(n).len(),
        decimal_digits(n).len() == 1 <==> n < 10,
        decimal_digits(n).len() == 2 <==> 10 <= n < 100,
    decreases n,
{
    if n < 10 {
        assert(decimal_digits(n).drop_last() =~= Seq::<char>::empty());
        assert(digit_value(digit_char(n)) == n);
        assert(decimal_value(Seq::<char>::empty()) == 0);
    } else {
        lemma_decimal_digits(n / 10);
        let d = decimal_digits(n / 10);
        assert(decimal_digits(n).drop_last() =~= d);
        assert(decimal_digits(n).last() == digit_char(n % 10));
        assert(digit_value(digit_char(n % 10)) == n % 10);
        if n < 100 {
            assert(n / 10 < 10);
        } else {
            assert(n / 10 >= 10);
        }
    }
}

/// Spelling an id and reading it back gives the id again.
pub proof fn lemma_padded_digits(n: nat)
    ensures
        all_digits(padded_digits(n)),
        decimal_value(padded_digits(n)) == n,
        padded_digits(n).len() >= 1,
{
    lemma_decimal_digits(n);
    let d = decimal_digits(n);
    if d.len() < NAME_WIDTH {
        let z = Seq::new((NAME_WIDTH - d.len()) as nat, |i: int| '0');
        lemma_decimal_value_append(z, d);
        lemma_decimal_value_zeros((NAME_WIDTH - d.len()) as nat);
        assert(0 * pow10(d.len()) == 0);
        assert(padded_digits(n) == z + d);
        assert forall|i: int| 0 <= i < (z + d).len() implies is_digit(#[trigger] (z + d)[i]) by {
            if i >= z.len() {
                assert((z + d)[i] == d[i - z.len()]);
            }
        }
    }
}

/// Appends the shortest decimal spelling of `n`.
fn push_decimal(s: &mut String, n: usize)
    ensures
        final(s)@ == old(s)@ + decimal_digits(n as nat),
    decreases n,
{
    if n >= 10 {
        push_decimal(s, n / 10);
    }
    let d: usize = n % 10;
    let table = "0123456789";
    proof {
        reveal_strlit("0123456789");
    }
    let piece = table.substring_char(d, d + 1);
    assert(piece@ =~= seq![digit_char(d as nat)]);
    s.append(piece);
    assert(final(s)@ =~= old(s)@ + decimal_digits(n as nat));
}

/// The file name for sequence id `id`: its decimal digits, padded with zeros
/// to three places, followed by `.log`.
pub fn log_name(id: usize) -> (r: String)
    ensures
        r@ == log_file_name(id as nat),
{
    let mut s = String::new();
    proof {
        lemma_decimal_digits(id as nat);
        reveal_strlit("00");
        reveal_strlit("0");
        reveal_strlit(".log");
    }
    if id < 10 {
        s.append("00");
    } else if id < 100 {
        s.append("0");
    }
    push_decimal(&mut s, id);
    s.append(".log");
    assert(s@ =~= log_file_name(id as nat));
    s
}

/// The path of entry `name` in directory `dir`.
pub open spec fn path_in(dir: Seq<char>, name: Seq<char>) -> Seq<char> {
    dir + seq!['/'] + name
}

/// Joins a directory and an entry name with `/`.
pub fn join_path(dir: &str, name: &str) -> (r: String)
    ensures
        r@ == path_in(dir@, name@),
{
    let mut path = String::from_str(dir);
    proof {
        reveal_strlit("/");
    }
    path.append("/");
    path.append(name);
    path
}

/// The path and the name of the file for sequence id `id` in directory `dir`:
/// `(dir/NNN.log, NNN.log)`.
pub fn get_new_file(dir: &str, id: usize) -> (r: (String, String))
    ensures
        r.1@ == log_file_name(id as nat),
        r.0@ == path_in(dir@, log_file_name(id as nat)),
{
    let name = log_name(id);
    let path = join_path(dir, name.as_str());
    (path, name)
}

/// The sequence id encoded in a file name of the rotator, or `None` for a
/// name that is not one (`notes.txt`, `.log`, `x1.log`, an id past `usize`).
pub fn get_id(file: &str) -> (r: Option<usize>)
    ensures
        r == id_of_name(file@),
{
    let len = file.unicode_len();
    if len <= 4 {
        return None;
    }
    let stem_len: usize = len - 4;
    proof {
        reveal_strlit(".log");
    }
    if !(file.get_char(stem_len) == '.' && file.get_char(stem_len + 1) == 'l' && file.get_char(
        stem_len + 2,
    ) == 'o' && file.get_char(stem_len + 3) == 'g') {
        proof {
            let e = file@.subrange(stem_len as int, len as int);
            if e == log_extension() {
                assert(e[0] == file@[stem_len as int]);
                assert(e[1] == file@[stem_len + 1]);
                assert(e[2] == file@[stem_len + 2]);
                assert(e[3] == file@[stem_len + 3]);
            }
        }
        return None;
    }
    assert(file@.subrange(stem_len as int, len as int) =~= log_extension());
    let ghost stem = file@.subrange(0, stem_len as int);
    let mut acc: usize = 0;
    let mut i: usize = 0;
    while i < stem_len
        invariant
            stem_len + 4 == len,
            len == file@.len(),
            stem == file@.subrange(0, stem_len as int),
            i <= stem_len,
            all_digits(stem.take(i as int)),
            acc == decimal_value(stem.take(i as int)),
        decreases stem_len - i,
    {
        let c = file.get_char(i);
        assert(stem[i as int] == c);
        if !('0' <= c && c <= '9') {
            return None;
        }
        let d: usize = (c as u32 - '0' as u32) as usize;
        assert(stem.take(i + 1).drop_last() =~= stem.take(i as int));
        assert(stem.take(i + 1).last() == c);
        assert(decimal_value(stem.take(i + 1)) == acc * 10 + d);
        let next = match acc.checked_mul(10) {
            Some(m) => m.checked_add(d),
            None => None,
        };
        match next {
            Some(v) => {
                acc = v;
            },
            None => {
                proof {
                    lemma_decimal_value_prefix(stem, i + 1);
                }
                return None;
            },
        }
        i = i + 1;
        assert forall|j: int| 0 <= j < i implies is_digit(#[trigger] stem.take(i as int)[j]) by {
            if j < i - 1 {
                assert(stem.take(i as int)[j] == stem.take(i - 1)[j]);
            }
        }
    }
    assert(stem.take(stem_len as int) =~= stem);
    Some(acc)
}

/// Naming round trip: the name given to an id reads back as that id, so
/// distinct ids never share a name.
pub proof fn lemma_name_round_trip(id: usize)
    ensures
        id_of_name(log_file_name(id as nat)) == Some(id),
        forall|other: usize|
            log_file_name(other as nat) == log_file_name(id as nat) ==> other == id,
{
    lemma_padded_digits(id as nat);
    let name = log_file_name(id as nat);
    let p = padded_digits(id as nat);
    assert(name.subrange(name.len() - 4, name.len() as int) =~= log_extension());
    assert(name.subrange(0, name.len() - 4) =~= p);
    assert forall|other: usize|
        log_file_name(other as nat) == log_file_name(id as nat) implies other == id by {
        lemma_padded_digits(other as nat);
        let n2 = log_file_name(other as nat);
        assert(n2.subrange(n2.len() - 4, n2.len() as int) =~= log_extension());
        assert(n2.subrange(0, n2.len() - 4) =~= padded_digits(other as nat));
    }
}

} // verus!
