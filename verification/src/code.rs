//! The wormhole code that the sender shows and the receiver types in, and what
//! the receiver's user answers.

use vstd::prelude::*;

use crate::error::TransferError;

verus! {

/// A code splits at its first colon into a password and an address.
pub open spec fn splits(code: Seq<char>, password: Seq<char>, address: Seq<char>) -> bool {
    &&& code == password + seq![':'] + address
    &&& !password.contains(':')
}

/// Makes the code `password:address`.
pub fn wormhole_code(password: &str, address: &str) -> (code: String)
    ensures
        code@ == password@ + seq![':'] + address@,
{
    let mut code = password.to_owned();
    proof {
        reveal_strlit(":");
    }
    code.append(":");
    code.append(address);
    assert(code@ =~= password@ + seq![':'] + address@);
    code
}

/// Splits a code into the password and the sender's address, at the first
/// colon.
pub fn parse_code(code: &str) -> (r: Result<(&str, &str), TransferError>)
    ensures
        match r {
            Ok((password, address)) => splits(code@, password@, address@),
            Err(e) => e is InvalidCode && !code@.contains(':'),
        },
{
    let len: usize = code.unicode_len();
    let mut i: usize = 0;
    for c in chars: code.chars()
        invariant
            i == chars.index(),
            chars.seq() == code@,
            len == code@.len(),
            forall|j: int| 0 <= j < i ==> code@[j] != ':',
    {
        if c == ':' {
            let password = code.substring_char(0, i);
            let address = code.substring_char(i + 1, len);
            assert(code@ =~= password@ + seq![':'] + address@);
            return Ok((password, address));
        }
        i = i + 1;
    }
    Err(TransferError::InvalidCode)
}

/// Parsing a code gives back the password and the address it was made of, for
/// every password without a colon.
pub proof fn law_code_round_trip(
    password: Seq<char>,
    address: Seq<char>,
    parsed_password: Seq<char>,
    parsed_address: Seq<char>,
)
    requires
        !password.contains(':'),
    ensures
        ({
            let code = password + seq![':'] + address;
            &&& code.contains(':')
            &&& splits(code, parsed_password, parsed_address) <==> parsed_password == password
                && parsed_address == address
        }),
{
    let code = password + seq![':'] + address;
    assert(code[password.len() as int] == ':');
    if splits(code, parsed_password, parsed_address) {
        let n = parsed_password.len() as int;
        assert(code[n] == ':');
        if n < password.len() {
            assert(password[n] == ':');
        }
        if password.len() < n {
            assert(parsed_password[password.len() as int] == ':');
        }
        let again = parsed_password + seq![':'] + parsed_address;
        assert(password =~= code.take(n) && parsed_password =~= again.take(n));
        assert(address =~= code.skip(n + 1) && parsed_address =~= again.skip(n + 1));
    }
}

/// The characters that Unicode counts as white space.
pub open spec fn white_space(c: char) -> bool {
    let n = c as u32;
    ||| 0x9 <= n <= 0xd
    ||| n == 0x20
    ||| n == 0x85
    ||| n == 0xa0
    ||| n == 0x1680
    ||| 0x2000 <= n <= 0x200a
    ||| n == 0x2028
    ||| n == 0x2029
    ||| n == 0x202f
    ||| n == 0x205f
    ||| n == 0x3000
}

/// Whether a character is white space.
fn is_white_space(c: char) -> (b: bool)
    ensures
        b == white_space(c),
{
    let n: u32 = c as u32;
    (0x9 <= n && n <= 0xd) || n == 0x20 || n == 0x85 || n == 0xa0 || n == 0x1680 || (0x2000 <= n && n
        <= 0x200a) || n == 0x2028 || n == 0x2029 || n == 0x202f || n == 0x205f || n == 0x3000
}

/// A yes: the letter Y, large or small, with any white space around it.
pub open spec fn is_yes(answer: Seq<char>) -> bool {
    exists|i: int|
        {
            &&& 0 <= i < answer.len()
            &&& #[trigger] answer[i] == 'y' || answer[i] == 'Y'
            &&& forall|j: int| 0 <= j < answer.len() && j != i ==> white_space(answer[j])
        }
}

/// An answer is a yes exactly if it is a Y with nothing but white space in front
/// of it and behind it, however long that is.
pub proof fn law_yes_is_one_letter(front: Seq<char>, letter: char, back: Seq<char>, answer: Seq<char>)
    ensures
        (forall|k: int| 0 <= k < front.len() ==> white_space(#[trigger] front[k])) && (forall|
            k: int,
        |
            0 <= k < back.len() ==> white_space(#[trigger] back[k])) && (letter == 'y' || letter
            == 'Y') ==> is_yes(front + seq![letter] + back),
        is_yes(answer) ==> exists|i: int|
            {
                &&& 0 <= i < answer.len()
                &&& #[trigger] answer[i] == 'y' || answer[i] == 'Y'
                &&& forall|k: int| 0 <= k < i ==> white_space(answer[k])
                &&& forall|k: int| i < k < answer.len() ==> white_space(answer[k])
            },
{
    let whole = front + seq![letter] + back;
    let at = front.len() as int;
    assert(whole[at] == letter);
    if (forall|k: int| 0 <= k < front.len() ==> white_space(#[trigger] front[k])) && (forall|
        k: int,
    |
        0 <= k < back.len() ==> white_space(#[trigger] back[k])) && (letter == 'y' || letter
        == 'Y') {
        assert forall|j: int| 0 <= j < whole.len() && j != at implies white_space(whole[j]) by {
            if j < at {
                assert(whole[j] == front[j]);
            } else {
                assert(whole[j] == back[j - at - 1]);
            }
        }
    }
}

/// Whether the user's answer to an offer is a yes. Everything else is a no.
pub fn accepts(answer: &str) -> (yes: bool)
    ensures
        yes == is_yes(answer@),
{
    let mut seen = false;
    let ghost mut at: int = 0;
    for c in chars: answer.chars()
        invariant
            chars.seq() == answer@,
            seen ==> 0 <= at < chars.index() && (answer@[at] == 'y' || answer@[at] == 'Y'),
            forall|j: int| 0 <= j < chars.index() && !(seen && j == at) ==> white_space(answer@[j]),
    {
        let ghost k = chars.index();
        if !is_white_space(c) {
            if seen || !(c == 'y' || c == 'Y') {
                assert(!is_yes(answer@)) by {
                    if is_yes(answer@) {
                        let i = choose|i: int|
                            {
                                &&& 0 <= i < answer@.len()
                                &&& #[trigger] answer@[i] == 'y' || answer@[i] == 'Y'
                                &&& forall|j: int|
                                    0 <= j < answer@.len() && j != i ==> white_space(answer@[j])
                            };
                        assert(k == i);
                        assert(seen ==> at == i);
                    }
                }
                return false;
            }
            seen = true;
            proof {
                at = k;
            }
        }
    }
    if seen {
        assert(answer@[at] == 'y' || answer@[at] == 'Y');
    }
    seen
}

/// The name of the file that is written until its digest has been checked.
pub fn part_name(filename: &str) -> (name: String)
    ensures
        name@ == filename@ + ".part"@,
{
    let mut name = filename.to_owned();
    name.append(".part");
    name
}

} // verus!
