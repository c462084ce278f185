//! Passwords made of words.

use vstd::prelude::*;

use crate::draws::Draws;

verus! {

/// Texts with hyphens between them.
pub open spec fn hyphenated(words: Seq<Seq<char>>) -> Seq<char>
    decreases words.len(),
{
    if words.len() == 0 {
        Seq::empty()
    } else if words.len() == 1 {
        words[0]
    } else {
        hyphenated(words.drop_last()) + seq!['-'] + words.last()
    }
}

/// The words of a list at the given places.
pub open spec fn picked(list: Seq<&str>, picks: Seq<usize>) -> Seq<Seq<char>> {
    picks.map_values(|p: usize| list[p as int]@)
}

/// All places are in the list.
pub open spec fn within(picks: Seq<usize>, len: nat) -> bool {
    forall|i: int| 0 <= i < picks.len() ==> #[trigger] picks[i] < len
}

/// Makes a password of the words at the given places of the list.
pub fn password_of(list: &[&str], picks: &[usize]) -> (password: String)
    requires
        within(picks@, list@.len()),
    ensures
        password@ == hyphenated(picked(list@, picks@)),
{
    let mut password = String::new();
    let mut i: usize = 0;
    let ghost words = picked(list@, picks@);
    while i < picks.len()
        invariant
            i <= picks@.len(),
            within(picks@, list@.len()),
            words == picked(list@, picks@),
            password@ == hyphenated(words.take(i as int)),
        decreases picks@.len() - i,
    {
        if i > 0 {
            proof {
                reveal_strlit("-");
            }
            password.append("-");
        }
        password.append(list[picks[i]]);
        assert(words.take(i + 1).drop_last() =~= words.take(i as int));
        assert(password@ =~= hyphenated(words.take(i + 1)));
        i = i + 1;
    }
    assert(words.take(i as int) =~= words);
    password
}

/// `rand::Rng::gen_range` with the thread's generator: a random number below
/// `n`, which must not be zero. It is added to the record, with its bound.
#[verifier::external_body]
fn random_below(draws: Draws, n: usize) -> (r: (Draws, usize))
    requires
        n > 0,
    ensures
        r.1 < n,
        r.0@ == draws@.push((n, r.1)),
{
    (draws, rand::Rng::gen_range(&mut rand::thread_rng(), 0..n))
}

/// Random numbers as they stand on the record, all with the same bound.
pub open spec fn drawn_below(n: usize, picks: Seq<usize>) -> Seq<(usize, usize)> {
    picks.map_values(|p: usize| (n, p))
}

/// Draws so many random numbers below `n`. They are those, in order, that were
/// added to the record: each is a draw of its own.
pub fn draw(draws: Draws, n: usize, count: usize) -> (r: (Draws, Vec<usize>))
    requires
        n > 0,
    ensures
        r.1@.len() == count,
        within(r.1@, n as nat),
        r.0@ == draws@ + drawn_below(n, r.1@),
{
    let mut draws = draws;
    let ghost before = draws@;
    let mut picks: Vec<usize> = Vec::new();
    assert(before + drawn_below(n, picks@) =~= before);
    while picks.len() < count
        invariant
            n > 0,
            picks@.len() <= count,
            within(picks@, n as nat),
            draws@ == before + drawn_below(n, picks@),
        decreases count - picks@.len(),
    {
        let (more, pick) = random_below(draws, n);
        draws = more;
        picks.push(pick);
        assert(draws@ =~= before + drawn_below(n, picks@));
    }
    (draws, picks)
}

/// The password is made of the words of the list at places that were drawn for
/// it: `draw` was called, with nothing on the record, for as many places as
/// words are asked for, and gave these.
pub open spec fn drawn_password(list: Seq<&str>, num_words: usize, password: Seq<char>) -> bool {
    exists|start: Draws, end: Draws, picks: Vec<usize>| #[trigger]
        call_ensures(draw, (start, list.len() as usize, num_words), (end, picks)) && start@.len()
            == 0 && end@ == drawn_below(list.len() as usize, picks@) && within(picks@, list.len()) && picks@.len() == num_words
            && password == hyphenated(picked(list, picks@))
}

/// Makes a password of random words of the list.
pub fn generate_password(list: &[&str], num_words: usize) -> (password: String)
    requires
        list@.len() > 0,
    ensures
        exists|picks: Seq<usize>| #[trigger]
            within(picks, list@.len()) && picks.len() == num_words && password@ == hyphenated(
                picked(list@, picks),
            ),
        drawn_password(list@, num_words, password@),
{
    let start = Draws::new();
    let ghost start_record = start;
    let drawing = draw;
    let (end, picks) = drawing(start, list.len(), num_words);
    let password = password_of(list, picks.as_slice());
    assert(end@ =~= drawn_below(list@.len() as usize, picks@));
    assert(call_ensures(draw, (start_record, list@.len() as usize, num_words), (end, picks)));
    password
}

/// The places of the words of a password are random numbers that were drawn for
/// it from the whole list, one for each word and in this order, with nothing
/// drawn before.
pub proof fn law_password_words_were_drawn(list: Seq<&str>, num_words: usize, password: Seq<char>)
    requires
        drawn_password(list, num_words, password),
    ensures
        exists|start: Draws, end: Draws, picks: Vec<usize>|
            {
                &&& #[trigger] call_ensures(
                    draw,
                    (start, list.len() as usize, num_words),
                    (end, picks),
                )
                &&& start@.len() == 0
                &&& end@.len() == num_words
                &&& picks@.len() == num_words
                &&& forall|i: int|
                    0 <= i < num_words ==> #[trigger] end@[i] == (
                        list.len() as usize,
                        picks@[i],
                    ) && picks@[i] < list.len()
                &&& password == hyphenated(
                    Seq::new(num_words as nat, |i: int| list[picks@[i] as int]@),
                )
            },
{
    let (start, end, picks) = choose|start: Draws, end: Draws, picks: Vec<usize>| #[trigger]
        call_ensures(draw, (start, list.len() as usize, num_words), (end, picks)) && start@.len()
            == 0 && end@ == drawn_below(list.len() as usize, picks@) && within(picks@, list.len()) && picks@.len() == num_words
            && password == hyphenated(picked(list, picks@));
    assert(picked(list, picks@) =~= Seq::new(
        num_words as nat,
        |i: int| list[picks@[i] as int]@,
    ));
    assert(call_ensures(draw, (start, list.len() as usize, num_words), (end, picks)));
}

/// So many draws add so many numbers to the record, each with the bound that was
/// asked for, and they are the numbers that are given out. What was drawn before
/// stays on the record.
pub proof fn law_draws_are_recorded(
    draws: Draws,
    n: usize,
    count: usize,
    after: Draws,
    picks: Vec<usize>,
    i: int,
)
    requires
        call_ensures(draw, (draws, n, count), (after, picks)),
    ensures
        picks@.len() == count,
        after@.len() == draws@.len() + count,
        0 <= i < draws@.len() ==> after@[i] == draws@[i],
        0 <= i < count ==> after@[draws@.len() + i] == (n, picks@[i]) && picks@[i] < n,
{
}

/// No words make no text, one word is itself, and every further word comes
/// behind a hyphen.
pub proof fn law_words_are_joined_by_hyphens(words: Seq<Seq<char>>, word: Seq<char>)
    ensures
        hyphenated(Seq::empty()) == Seq::<char>::empty(),
        hyphenated(seq![word]) == word,
        words.len() > 0 ==> hyphenated(words.push(word)) == hyphenated(words) + seq!['-'] + word,
{
    assert(words.push(word).drop_last() =~= words);
}

/// The words are those at the given places of the list, in order.
pub proof fn law_words_are_those_at_the_places(list: Seq<&str>, picks: Seq<usize>, i: int)
    ensures
        picked(list, picks).len() == picks.len(),
        0 <= i < picks.len() ==> picked(list, picks)[i] == list[picks[i] as int]@,
        within(picks, list.len()) && 0 <= i < picks.len() ==> picks[i] < list.len(),
{
}

/// Different words give different passwords, where no word has a hyphen in it:
/// there are as many passwords of so many words as there are choices of words.
pub proof fn law_different_words_give_different_passwords(
    words: Seq<Seq<char>>,
    others: Seq<Seq<char>>,
)
    requires
        words.len() == others.len(),
        forall|i: int| 0 <= i < words.len() ==> !(#[trigger] words[i]).contains('-'),
        forall|i: int| 0 <= i < others.len() ==> !(#[trigger] others[i]).contains('-'),
        hyphenated(words) == hyphenated(others),
    ensures
        words == others,
    decreases words.len(),
{
    if words.len() == 0 {
        assert(words =~= others);
    } else if words.len() == 1 {
        assert(words =~= others);
    } else {
        let front = hyphenated(words.drop_last());
        let other_front = hyphenated(others.drop_last());
        let last = words[words.len() - 1];
        let other_last = others[others.len() - 1];
        let whole = front + seq!['-'] + last;
        let other_whole = other_front + seq!['-'] + other_last;
        assert(whole == other_whole);
        assert(whole[front.len() as int] == '-');
        assert(other_whole[other_front.len() as int] == '-');
        if front.len() > other_front.len() {
            assert(other_last[front.len() - other_front.len() - 1] == '-');
        }
        if front.len() < other_front.len() {
            assert(last[other_front.len() - front.len() - 1] == '-');
        }
        assert(front =~= whole.take(front.len() as int) && other_front =~= other_whole.take(
            front.len() as int,
        ));
        let behind = front.len() as int + 1;
        assert(last =~= whole.skip(behind) && other_last =~= other_whole.skip(behind));
        assert forall|i: int| 0 <= i < words.len() - 1 implies !(
        #[trigger] words.drop_last()[i]).contains('-') && !(others.drop_last()[i]).contains(
            '-',
        ) by {
            assert(words.drop_last()[i] == words[i] && others.drop_last()[i] == others[i]);
        }
        assert forall|i: int| 0 <= i < others.len() - 1 implies !(
        #[trigger] others.drop_last()[i]).contains('-') by {
            assert(others.drop_last()[i] == others[i]);
        }
        law_different_words_give_different_passwords(words.drop_last(), others.drop_last());
        assert(words =~= words.drop_last().push(last));
        assert(others =~= others.drop_last().push(other_last));
    }
}

/// A password of words without a character, other than the hyphen, is without
/// it too. So a code that is made with it splits where the password ends.
pub proof fn law_password_has_only_the_words(words: Seq<Seq<char>>, c: char)
    requires
        c != '-',
        forall|i: int| 0 <= i < words.len() ==> !(#[trigger] words[i]).contains(c),
    ensures
        !hyphenated(words).contains(c),
    decreases words.len(),
{
    if words.len() > 1 {
        let earlier = words.drop_last();
        assert forall|i: int| 0 <= i < earlier.len() implies !(#[trigger] earlier[i]).contains(
            c,
        ) by {
            assert(earlier[i] == words[i]);
        }
        law_password_has_only_the_words(earlier, c);
        let front = hyphenated(earlier);
        let whole = hyphenated(words);
        let last = words[words.len() - 1];
        if whole.contains(c) {
            let i = choose|i: int| 0 <= i < whole.len() && whole[i] == c;
            if i < front.len() {
                assert(front[i] == c);
            } else if i > front.len() {
                assert(last[i - front.len() - 1] == c);
            }
        }
    } else if words.len() == 1 {
        assert(!words[0].contains(c));
    }
}

} // verus!
