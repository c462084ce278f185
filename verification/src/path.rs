//! Where a file with a given name lands.

use vstd::prelude::*;

verus! {

/// Whether a character separates the parts of a path. A Windows path has two
/// such characters.
pub open spec fn separator(c: char, windows: bool) -> bool {
    c == '/' || (windows && c == '\\')
}

/// The parts of a path, between its separators.
pub open spec fn parts(path: Seq<char>, windows: bool) -> Seq<Seq<char>>
    decreases path.len(),
{
    if path.len() == 0 {
        seq![Seq::empty()]
    } else {
        let front = parts(path.drop_last(), windows);
        if separator(path.last(), windows) {
            front.push(Seq::empty())
        } else {
            front.update(front.len() - 1, front.last().push(path.last()))
        }
    }
}

/// How many levels a part of a path leads down: none, if it is empty or one
/// dot, and one up, if it is two dots.
pub open spec fn descent(part: Seq<char>) -> int {
    if part.len() == 0 || (part.len() == 1 && part[0] == '.') {
        0
    } else if part.len() == 2 && part[0] == '.' && part[1] == '.' {
        -1
    } else {
        1
    }
}

/// How many levels the first `n` parts lead down.
pub open spec fn depth(parts: Seq<Seq<char>>, n: nat) -> int
    decreases n,
{
    if n == 0 {
        0
    } else {
        depth(parts, (n - 1) as nat) + descent(parts[n - 1])
    }
}

/// Whether a path begins at a root, or on a drive of a Windows system, and not
/// in the directory it is looked up in.
pub open spec fn rooted(path: Seq<char>, windows: bool) -> bool {
    ||| path.len() > 0 && separator(path[0], windows)
    ||| windows && path.len() >= 2 && path[1] == ':' && ('a' <= path[0] <= 'z' || 'A' <= path[0]
        <= 'Z')
}

/// A path that does not leave the directory it is looked up in.
pub open spec fn inside(path: Seq<char>, windows: bool) -> bool {
    &&& !rooted(path, windows)
    &&& forall|n: nat|
        n <= parts(path, windows).len() ==> #[trigger] depth(parts(path, windows), n) >= 0
}

/// The parts of the beginning of a path are parts of the path, but for the last
/// one, which may go on.
proof fn lemma_parts_go_on(path: Seq<char>, i: int, windows: bool)
    requires
        0 <= i <= path.len(),
    ensures
        parts(path.take(i), windows).len() >= 1,
        parts(path, windows).len() >= parts(path.take(i), windows).len(),
        forall|k: int|
            0 <= k < parts(path.take(i), windows).len() - 1 ==> #[trigger] parts(path, windows)[k]
                == parts(path.take(i), windows)[k],
    decreases path.len(),
{
    if i == path.len() {
        assert(path.take(i) =~= path);
        if path.len() > 0 {
            lemma_parts_go_on(path.drop_last(), i - 1, windows);
        }
    } else {
        lemma_parts_go_on(path.drop_last(), i, windows);
        assert(path.drop_last().take(i) =~= path.take(i));
    }
}

/// The depth depends on the parts that are counted only.
proof fn lemma_depth_agrees(p: Seq<Seq<char>>, q: Seq<Seq<char>>, n: nat)
    requires
        forall|k: int| 0 <= k < n ==> p[k] == q[k],
    ensures
        depth(p, n) == depth(q, n),
    decreases n,
{
    if n > 0 {
        lemma_depth_agrees(p, q, (n - 1) as nat);
    }
}

/// A path has as many parts more as separators more, and its depth before the
/// last part stays what it was.
proof fn lemma_next_char(path: Seq<char>, i: int, windows: bool)
    requires
        0 <= i < path.len(),
    ensures
        ({
            let before = parts(path.take(i), windows);
            let after = parts(path.take(i + 1), windows);
            &&& before.len() >= 1
            &&& if separator(path[i], windows) {
                after == before.push(Seq::empty())
            } else {
                after == before.update(before.len() - 1, before.last().push(path[i]))
            }
            &&& forall|n: nat| n < before.len() ==> #[trigger] depth(after, n) == depth(before, n)
            &&& separator(path[i], windows) ==> depth(after, before.len()) == depth(
                before,
                before.len(),
            )
        }),
{
    let before = parts(path.take(i), windows);
    let after = parts(path.take(i + 1), windows);
    assert(path.take(i + 1).drop_last() =~= path.take(i));
    lemma_parts_go_on(path.take(i), i, windows);
    assert forall|n: nat| n < before.len() implies #[trigger] depth(after, n) == depth(
        before,
        n,
    ) by {
        lemma_depth_agrees(after, before, n);
    }
    if separator(path[i], windows) {
        lemma_depth_agrees(after, before, before.len());
    }
}

/// The parts of a path are what stands between its separators: a separator ends
/// a part, and any other character goes into the last one.
pub proof fn law_separators_end_parts(path: Seq<char>, c: char, windows: bool)
    ensures
        parts(Seq::empty(), windows) == seq![Seq::<char>::empty()],
        ({
            let before = parts(path, windows);
            let after = parts(path.push(c), windows);
            if c == '/' || (windows && c == '\\') {
                after == before.push(Seq::empty())
            } else {
                after == before.update(before.len() - 1, before.last().push(c))
            }
        }),
{
    assert(path.push(c).drop_last() =~= path);
}

/// A path stays inside exactly if it begins in the directory and never goes up
/// more often than down: nothing and one dot stay, two dots go up, and anything
/// else goes down.
pub proof fn law_inside_never_goes_above(path: Seq<char>, windows: bool, p: Seq<Seq<char>>, n: nat)
    ensures
        depth(p, 0) == 0,
        p[n as int].len() == 0 ==> depth(p, n + 1) == depth(p, n),
        p[n as int] == seq!['.'] ==> depth(p, n + 1) == depth(p, n),
        p[n as int] == seq!['.', '.'] ==> depth(p, n + 1) == depth(p, n) - 1,
        p[n as int].len() > 0 && p[n as int] != seq!['.'] && p[n as int] != seq!['.', '.'] ==> depth(
            p,
            n + 1,
        ) == depth(p, n) + 1,
        inside(path, windows) <==> {
            &&& path.len() > 0 ==> path[0] != '/'
            &&& windows && path.len() > 0 ==> path[0] != '\\'
            &&& windows && path.len() > 1 && path[1] == ':' ==> !('a' <= path[0] <= 'z' || 'A'
                <= path[0] <= 'Z')
            &&& forall|k: nat|
                k <= parts(path, windows).len() ==> #[trigger] depth(parts(path, windows), k) >= 0
        },
{
    let part = p[n as int];
    assert(part.len() == 1 && part[0] == '.' ==> part =~= seq!['.']);
    assert(part.len() == 2 && part[0] == '.' && part[1] == '.' ==> part =~= seq!['.', '.']);
}

/// The name of a single file stays inside, and a path that begins by going up,
/// or at the root, does not.
pub proof fn law_plain_names_stay_and_climbers_leave(
    name: Seq<char>,
    rest: Seq<char>,
    windows: bool,
)
    ensures
        !name.contains('/') && !name.contains('\\') && !name.contains(':') && name != seq!['.', '.']
            ==> inside(name, windows),
        !inside(seq!['/'] + rest, windows),
        !inside(seq!['.', '.'], windows),
        !inside(seq!['.', '.', '/'] + rest, windows),
{
    if !name.contains('/') && !name.contains('\\') && !name.contains(':') && name != seq!['.', '.'] {
        lemma_longer_last_part(Seq::empty(), name, windows);
        assert(Seq::<char>::empty() + name =~= name);
        let p = parts(name, windows);
        assert(p[0] =~= name);
        assert(name.len() == 2 && name[0] == '.' && name[1] == '.' ==> name =~= seq!['.', '.']);
        assert forall|n: nat| n <= p.len() implies #[trigger] depth(p, n) >= 0 by {
            assert(p.len() == 1);
            reveal_with_fuel(depth, 2);
        }
        assert(name.len() > 0 ==> name.contains(name[0]));
        assert(name.len() > 1 ==> name.contains(name[1]));
    }
    assert((seq!['/'] + rest)[0] == '/');
    let up = seq!['.', '.'];
    lemma_longer_last_part(Seq::empty(), up, windows);
    assert(Seq::<char>::empty() + up =~= up);
    let p = parts(up, windows);
    assert(p[0] =~= up);
    reveal_with_fuel(depth, 2);
    assert(depth(p, 1) == -1);
    let path = seq!['.', '.', '/'] + rest;
    assert(path.take(3) =~= up.push('/'));
    law_separators_end_parts(up, '/', windows);
    lemma_parts_go_on(path, 3, windows);
    assert(parts(path, windows)[0] == parts(path.take(3), windows)[0]);
    assert(depth(parts(path, windows), 1) == -1);
}

/// Whether a path does not leave the directory it is looked up in, on a Windows
/// system or on another one. A path may also lead to that directory itself.
pub fn stays_inside(path: &str, windows: bool) -> (b: bool)
    ensures
        b == inside(path@, windows),
{
    let len: usize = path.unicode_len();
    if len >= 1 {
        let first = path.get_char(0);
        if first == '/' || (windows && first == '\\') {
            return false;
        }
        if windows && len >= 2 && path.get_char(1) == ':' && (('a' <= first && first <= 'z') || (
        'A' <= first && first <= 'Z')) {
            return false;
        }
    }
    let ghost all = parts(path@, windows);
    let mut level: usize = 0;
    let mut size: usize = 0;
    let mut dots = true;
    let mut i: usize = 0;
    proof {
        assert(path@.take(0) =~= Seq::empty());
        assert(parts(path@.take(0), windows).last() =~= Seq::empty());
    }
    for c in chars: path.chars()
        invariant
            chars.seq() == path@,
            i == chars.index(),
            len == path@.len(),
            all == parts(path@, windows),
            !rooted(path@, windows),
            ({
                let p = parts(path@.take(i as int), windows);
                &&& p.len() >= 1
                &&& level <= i
                &&& size <= i
                &&& level + size <= i
                &&& level == depth(p, (p.len() - 1) as nat)
                &&& forall|n: nat| n < p.len() ==> #[trigger] depth(p, n) >= 0
                &&& size == p.last().len()
                &&& dots == (forall|k: int| 0 <= k < size ==> p.last()[k] == '.')
            }),
    {
        let ghost p = parts(path@.take(i as int), windows);
        proof {
            lemma_next_char(path@, i as int, windows);
        }
        if c == '/' || (windows && c == '\\') {
            if dots && size == 2 {
                if level == 0 {
                    proof {
                        lemma_parts_go_on(path@, i + 1, windows);
                        lemma_depth_agrees(all, p, p.len());
                        assert(depth(p, p.len()) == -1);
                    }
                    return false;
                }
                level = level - 1;
            } else if !(size == 0 || (dots && size == 1)) {
                level = level + 1;
            }
            size = 0;
            dots = true;
            assert(descent(p.last()) == depth(p, p.len()) - depth(p, (p.len() - 1) as nat));
        } else {
            let ghost q = parts(path@.take(i + 1), windows);
            assert(q.last() =~= p.last().push(c));
            assert(q.last()[size as int] == c);
            assert(forall|k: int| 0 <= k < size ==> q.last()[k] == p.last()[k]);
            size = size + 1;
            dots = dots && c == '.';
        }
        i = i + 1;
    }
    assert(path@.take(i as int) =~= path@);
    let b = !(dots && size == 2 && level == 0);
    assert(depth(all, all.len()) == level + descent(all.last()));
    if b {
        assert(descent(all.last()) >= 0 || level > 0);
    }
    b
}

/// The parts of a path with more characters behind it, none of them a
/// separator.
proof fn lemma_longer_last_part(path: Seq<char>, more: Seq<char>, windows: bool)
    requires
        forall|k: int| 0 <= k < more.len() ==> !separator(#[trigger] more[k], windows),
    ensures
        ({
            let p = parts(path, windows);
            &&& p.len() >= 1
            &&& parts(path + more, windows) == p.update(p.len() - 1, p.last() + more)
        }),
    decreases more.len(),
{
    let p = parts(path, windows);
    lemma_parts_go_on(path, path.len() as int, windows);
    assert(path.take(path.len() as int) =~= path);
    if more.len() == 0 {
        assert(path + more =~= path);
        assert(p.last() + more =~= p.last());
        assert(p.update(p.len() - 1, p.last()) =~= p);
    } else {
        let fewer = more.drop_last();
        lemma_longer_last_part(path, fewer, windows);
        assert((path + more).drop_last() =~= path + fewer);
        assert((p.last() + fewer).push(more.last()) =~= p.last() + more);
        assert(!separator(more[more.len() - 1], windows));
        assert(parts(path + more, windows) =~= p.update(p.len() - 1, p.last() + more));
    }
}

/// Where a file stays inside a directory, so does the one that is written until
/// it is complete, which is another one.
pub proof fn law_part_file_stays_inside(path: Seq<char>, windows: bool)
    requires
        inside(path, windows),
    ensures
        inside(path + ".part"@, windows),
        path + ".part"@ != path,
{
    reveal_strlit(".part");
    let more = ".part"@;
    let longer = path + more;
    assert(longer.len() == path.len() + 5);
    lemma_longer_last_part(path, more, windows);
    let p = parts(path, windows);
    let q = parts(longer, windows);
    assert forall|n: nat| n <= q.len() implies #[trigger] depth(q, n) >= 0 by {
        if n < q.len() {
            lemma_depth_agrees(q, p, n);
        } else {
            lemma_depth_agrees(q, p, (n - 1) as nat);
            assert(depth(p, (n - 1) as nat) >= 0);
        }
    }
}

} // verus!
