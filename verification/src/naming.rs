//! File names of a run, the grouping token and the identifier of a part.

use crate::errors::EncodeErrors;
use vstd::prelude::*;
use vstd::string::StrSliceExecFns;
use vstd::string::StringExecFns;
use vstd::utf8::encode_utf8;
use vstd::utf8::is_ascii_chars;

verus! {

/// The decimal digit for a number below ten.
pub open spec fn digit(d: nat) -> char {
    if d == 0 {
        '0'
    } else if d == 1 {
        '1'
    } else if d == 2 {
        '2'
    } else if d == 3 {
        '3'
    } else if d == 4 {
        '4'
    } else if d == 5 {
        '5'
    } else if d == 6 {
        '6'
    } else if d == 7 {
        '7'
    } else if d == 8 {
        '8'
    } else {
        '9'
    }
}

/// A number in decimal, without leading zeros.
pub open spec fn decimal(n: nat) -> Seq<char>
    decreases n,
{
    if n < 10 {
        seq![digit(n)]
    } else {
        decimal(n / 10).push(digit(n % 10))
    }
}

/// The name of the part file with sequence number `number` in the run with
/// grouping token `token`.
pub open spec fn part_name(token: Seq<char>, number: nat) -> Seq<char> {
    token + seq!['_'] + decimal(number) + seq!['.', 'p', 'a', 'r', 't']
}

/// The name of the metadata file for a source file called `filename`.
pub open spec fn meta_name(filename: Seq<char>) -> Seq<char> {
    seq!['b', 'u', 'i', 'l', 'd', '_', 'f', 'i', 'l', 'e', '_'] + filename + seq![
        '.',
        'm',
        'e',
        't',
        'a',
    ]
}

/// The name under which a file is put together again.
pub open spec fn output_name(filename: Seq<char>, extension: Seq<char>) -> Seq<char> {
    filename + seq!['.'] + extension
}

/// The MD5 digest of a byte string.
pub uninterp spec fn md5_digest(data: Seq<u8>) -> Seq<u8>;

/// The identifier of a part: the digest of its file name in UTF-8.
pub open spec fn part_hash(token: Seq<char>, number: nat) -> Seq<u8> {
    md5_digest(encode_utf8(part_name(token, number)))
}

/// The identifiers of the parts 1 to `count`, in order.
pub open spec fn part_hashes(token: Seq<char>, count: nat) -> Seq<Seq<u8>> {
    Seq::new(count, |i: int| part_hash(token, (i + 1) as nat))
}

fn digit_str(d: u64) -> (s: &'static str)
    requires
        d < 10,
    ensures
        s@ == seq![digit(d as nat)],
{
    proof {
        reveal_strlit("0");
        reveal_strlit("1");
        reveal_strlit("2");
        reveal_strlit("3");
        reveal_strlit("4");
        reveal_strlit("5");
        reveal_strlit("6");
        reveal_strlit("7");
        reveal_strlit("8");
        reveal_strlit("9");
    }
    let s = if d == 0 {
        "0"
    } else if d == 1 {
        "1"
    } else if d == 2 {
        "2"
    } else if d == 3 {
        "3"
    } else if d == 4 {
        "4"
    } else if d == 5 {
        "5"
    } else if d == 6 {
        "6"
    } else if d == 7 {
        "7"
    } else if d == 8 {
        "8"
    } else {
        "9"
    };
    assert(s@ =~= seq![digit(d as nat)]);
    s
}

/// Appends `n` in decimal to `out`.
pub fn push_decimal(out: &mut String, n: u64)
    ensures
        final(out)@ == old(out)@ + decimal(n as nat),
    decreases n,
{
    if n >= 10 {
        push_decimal(out, n / 10);
    }
    out.append(digit_str(n % 10));
    assert(final(out)@ =~= old(out)@ + decimal(n as nat));
}

/// The name of the part file with sequence number `part_number`.
pub fn part_file_name(part_uuid: &str, part_number: u64) -> (name: String)
    ensures
        name@ == part_name(part_uuid@, part_number as nat),
{
    let mut name = String::from_str(part_uuid);
    proof {
        reveal_strlit("_");
        reveal_strlit(".part");
    }
    name.append("_");
    push_decimal(&mut name, part_number);
    name.append(".part");
    assert(name@ =~= part_name(part_uuid@, part_number as nat));
    name
}

/// The name of the metadata file for a source file called `filename`.
pub fn meta_file_name(filename: &str) -> (name: String)
    ensures
        name@ == meta_name(filename@),
{
    proof {
        reveal_strlit("build_file_");
        reveal_strlit(".meta");
    }
    let mut name = String::from_str("build_file_");
    name.append(filename);
    name.append(".meta");
    assert(name@ =~= meta_name(filename@));
    name
}

/// The name under which a file is put together again.
pub fn output_file_name(filename: &str, extension: &str) -> (name: String)
    ensures
        name@ == output_name(filename@, extension@),
{
    proof {
        reveal_strlit(".");
    }
    let mut name = String::from_str(filename);
    name.append(".");
    name.append(extension);
    assert(name@ =~= output_name(filename@, extension@));
    name
}

/// A number of two or more digits is ten or more.
pub proof fn lemma_decimal_len(n: nat)
    ensures
        decimal(n).len() >= 1,
        n < 10 <==> decimal(n).len() == 1,
    decreases n,
{
    if n >= 10 {
        lemma_decimal_len(n / 10);
    }
}

/// Different numbers below ten have different digits.
pub proof fn lemma_digit_injective(a: nat, b: nat)
    requires
        a < 10,
        b < 10,
        digit(a) == digit(b),
    ensures
        a == b,
{
    assert(digit(a) as u32 == 48 + a);
    assert(digit(b) as u32 == 48 + b);
}

/// Two numbers with the same decimal digits are the same number.
pub proof fn lemma_decimal_injective(a: nat, b: nat)
    requires
        decimal(a) == decimal(b),
    ensures
        a == b,
    decreases a,
{
    lemma_decimal_len(a);
    lemma_decimal_len(b);
    if a < 10 {
        assert(decimal(a)[0] == digit(a));
        assert(b < 10);
        assert(decimal(b)[0] == digit(b));
        lemma_digit_injective(a, b);
    } else {
        assert(b >= 10);
        let front_a = decimal(a / 10);
        let front_b = decimal(b / 10);
        assert(front_a =~= decimal(a).drop_last());
        assert(front_b =~= decimal(b).drop_last());
        assert(decimal(a).last() == digit(a % 10));
        assert(decimal(b).last() == digit(b % 10));
        lemma_digit_injective(a % 10, b % 10);
        lemma_decimal_injective(a / 10, b / 10);
    }
}

/// Within one run no two parts share a file name.
pub proof fn lemma_part_name_injective(token: Seq<char>, a: nat, b: nat)
    requires
        part_name(token, a) == part_name(token, b),
    ensures
        a == b,
{
    let suffix = seq!['.', 'p', 'a', 'r', 't'];
    let front = token + seq!['_'];
    let name_a = part_name(token, a);
    let name_b = part_name(token, b);
    assert(name_a.len() == front.len() + decimal(a).len() + 5);
    assert(name_b.len() == front.len() + decimal(b).len() + 5);
    assert(decimal(a) =~= name_a.subrange(front.len() as int, name_a.len() - 5));
    assert(decimal(b) =~= name_b.subrange(front.len() as int, name_b.len() - 5));
    lemma_decimal_injective(a, b);
}

/// The index of the last `c` in `s`, or -1 where `s` holds none.
pub open spec fn last_index_of(s: Seq<char>, c: char) -> int
    decreases s.len(),
{
    if s.len() == 0 {
        -1
    } else if s.last() == c {
        s.len() - 1
    } else {
        last_index_of(s.drop_last(), c)
    }
}

/// The last component of a path: what stands behind its last `/`.
pub open spec fn base_name(path: Seq<char>) -> Seq<char> {
    path.skip(last_index_of(path, '/') + 1)
}

/// The file name and the extension that a source path gives: the last
/// component of the path, cut at its last `.`. A component without a `.`
/// gives nothing.
pub open spec fn source_name(path: Seq<char>) -> Option<(Seq<char>, Seq<char>)> {
    let base = base_name(path);
    let dot = last_index_of(base, '.');
    if dot < 0 {
        None
    } else {
        Some((base.take(dot), base.skip(dot + 1)))
    }
}

/// `last_index_of` finds an index of `c` behind which no `c` stands.
pub proof fn lemma_last_index_of(s: Seq<char>, c: char)
    ensures
        -1 <= last_index_of(s, c) < s.len(),
        last_index_of(s, c) >= 0 ==> s[last_index_of(s, c)] == c,
        forall|i: int| last_index_of(s, c) < i < s.len() ==> s[i] != c,
    decreases s.len(),
{
    if s.len() > 0 && s.last() != c {
        let front = s.drop_last();
        lemma_last_index_of(front, c);
        assert forall|i: int| last_index_of(s, c) < i < s.len() implies s[i] != c by {
            if i < front.len() {
                assert(front[i] != c);
            }
        }
    }
}

/// An index of `c` behind which no `c` stands is the one that
/// `last_index_of` finds.
pub proof fn lemma_last_index_found(s: Seq<char>, c: char, at: int)
    requires
        -1 <= at < s.len(),
        at >= 0 ==> s[at] == c,
        forall|i: int| at < i < s.len() ==> s[i] != c,
    ensures
        last_index_of(s, c) == at,
    decreases s.len(),
{
    if s.len() > 0 && s.last() != c {
        let front = s.drop_last();
        assert forall|i: int| at < i < front.len() implies front[i] != c by {
            assert(s[i] != c);
        }
        lemma_last_index_found(front, c, at);
    }
}

/// File name and extension of a source path make the name of the file
/// again: the file that is put together carries the name of the source.
pub proof fn lemma_source_name_rebuilt(path: Seq<char>)
    requires
        source_name(path) is Some,
    ensures
        source_name(path) matches Some((filename, extension)) && output_name(filename, extension)
            == base_name(path),
{
    let base = base_name(path);
    lemma_last_index_of(base, '.');
    let dot = last_index_of(base, '.');
    assert(base.take(dot) + seq!['.'] + base.skip(dot + 1) =~= base);
}

/// The index of the last `c` in `s`, if `s` holds one.
fn find_last(s: &str, c: char) -> (found: Option<usize>)
    ensures
        match found {
            None => last_index_of(s@, c) == -1,
            Some(at) => last_index_of(s@, c) == at && at < s@.len(),
        },
{
    let mut i: usize = s.unicode_len();
    while i > 0
        invariant
            i <= s@.len(),
            forall|j: int| i <= j < s@.len() ==> s@[j] != c,
        decreases i,
    {
        i -= 1;
        if s.get_char(i) == c {
            proof {
                lemma_last_index_found(s@, c, i as int);
            }
            return Some(i);
        }
    }
    proof {
        lemma_last_index_found(s@, c, -1);
    }
    None
}

/// Takes the file name and the extension from a source path.
pub fn split_source_path(path: &str) -> (names: Result<(String, String), EncodeErrors>)
    ensures
        match source_name(path@) {
            None => names == Err::<(String, String), _>(EncodeErrors::InvalidPath),
            Some((filename, extension)) => names matches Ok((f, e)) && f@ == filename && e@
                == extension,
        },
{
    let len = path.unicode_len();
    let start: usize = match find_last(path, '/') {
        None => 0,
        Some(at) => at + 1,
    };
    proof {
        lemma_last_index_of(path@, '/');
    }
    let base = path.substring_char(start, len);
    assert(base@ =~= base_name(path@));
    match find_last(base, '.') {
        None => Err(EncodeErrors::InvalidPath),
        Some(dot) => {
            proof {
                lemma_last_index_of(base@, '.');
            }
            let filename = String::from_str(base.substring_char(0, dot));
            let extension = String::from_str(base.substring_char(dot + 1, base.unicode_len()));
            assert(filename@ =~= base@.take(dot as int));
            assert(extension@ =~= base@.skip(dot + 1));
            Ok((filename, extension))
        },
    }
}

/// Calls `md5::compute` on `data` and hands out the 16 bytes of the
/// digest. The contract gives the digest its name, `md5_digest`: it claims
/// that the digest depends on the bytes alone, and nothing of its value.
#[verifier::external_body]
pub(crate) fn md5_of(data: &[u8]) -> (digest: [u8; 16])
    ensures
        digest@ == md5_digest(data@),
{
    md5::compute(data).0
}

/// Calls `uuid::Uuid::new_v4` and writes the random UUID in its hyphenated
/// lower-case form, as `to_string` does: 36 ASCII characters. Which UUID
/// comes out is left open. The call panics where the system has no random
/// bytes to give.
#[verifier::external_body]
pub(crate) fn random_token() -> (token: String)
    ensures
        token@.len() == 36,
        is_ascii_chars(token@),
{
    uuid::Uuid::new_v4().to_string()
}

} // verus!
