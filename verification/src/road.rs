//! The text in front of a key in the picture of a tree, one line per node,
//! the tree lying on its side. The road to a node is the turns taken from
//! the root: `u` for a step to the right child, drawn above its parent, and
//! `d` for a step to the left child, drawn below.

use vstd::prelude::*;
use vstd::string::{StrSliceExecFns, StringExecFns};
use itertools::Itertools;

verus! {

/// The pairs of neighbours in a road, in order.
pub open spec fn windows(road: Seq<char>) -> Seq<(char, char)> {
    Seq::new(
        if road.len() == 0 {
            0nat
        } else {
            (road.len() - 1) as nat
        },
        |i: int| (road[i], road[i + 1]),
    )
}

/// Three columns for each pair of neighbouring turns: a bar where the road
/// changes direction, because an edge of the tree crosses the line there, and
/// blanks where it goes on.
pub open spec fn bends(pairs: Seq<(char, char)>) -> Seq<char>
    decreases pairs.len(),
{
    if pairs.len() == 0 {
        Seq::empty()
    } else {
        bends(pairs.drop_last()) + if pairs.last().0 != pairs.last().1 {
            "│  "@
        } else {
            "   "@
        }
    }
}

/// The corner that joins a node to its parent: none for the root, opening
/// downwards for a right child and upwards for a left child.
pub open spec fn corner(road: Seq<char>) -> Seq<char> {
    if road.len() == 0 {
        Seq::empty()
    } else if road.last() == 'u' {
        "╭──"@
    } else {
        "╰──"@
    }
}

/// What stands in front of the key on the line of the node at the end of
/// `road`.
pub open spec fn line_start(road: Seq<char>) -> Seq<char> {
    "   "@ + bends(windows(road)) + corner(road)
}

/// The text of one decimal digit.
pub open spec fn digit(d: nat) -> Seq<char> {
    if d == 0 {
        "0"@
    } else if d == 1 {
        "1"@
    } else if d == 2 {
        "2"@
    } else if d == 3 {
        "3"@
    } else if d == 4 {
        "4"@
    } else if d == 5 {
        "5"@
    } else if d == 6 {
        "6"@
    } else if d == 7 {
        "7"@
    } else if d == 8 {
        "8"@
    } else {
        "9"@
    }
}

/// The decimal text of a number, without leading zeros.
pub open spec fn decimal(n: nat) -> Seq<char>
    decreases n,
{
    if n < 10 {
        digit(n)
    } else {
        decimal(n / 10) + digit(n % 10)
    }
}

/// The pairs of neighbouring turns of a road, by `Itertools::tuple_windows`
/// on its characters: one pair for each character but the last, made of that
/// character and the next.
#[verifier::external_body]
fn neighbours(road: &str) -> (pairs: Vec<(char, char)>)
    ensures
        pairs@ == windows(road@),
{
    road.chars().tuple_windows().collect()
}

fn digit_text(d: usize) -> (s: &'static str)
    requires
        d < 10,
    ensures
        s@ == digit(d as nat),
{
    if d == 0 {
        "0"
    } else if d == 1 {
        "1"
    } else if d == 2 {
        "2"
    } else if d == 3 {
        "3"
    } else if d == 4 {
        "4"
    } else if d == 5 {
        "5"
    } else if d == 6 {
        "6"
    } else if d == 7 {
        "7"
    } else if d == 8 {
        "8"
    } else {
        "9"
    }
}

/// The decimal text of a key.
pub fn key_text(val: usize) -> (s: String)
    ensures
        s@ == decimal(val as nat),
    decreases val,
{
    if val < 10 {
        String::from_str(digit_text(val))
    } else {
        let mut s = key_text(val / 10);
        s.append(digit_text(val % 10));
        s
    }
}

/// What stands in front of the key on the line of the node at the end of
/// `road`: a margin, the columns of the levels above, and the corner.
pub fn start_line(road: &str) -> (s: String)
    ensures
        s@ == line_start(road@),
{
    let pairs = neighbours(road);
    let mut s = String::from_str("   ");
    let mut i: usize = 0;
    while i < pairs.len()
        invariant
            i <= pairs.len(),
            s@ == "   "@ + bends(pairs@.take(i as int)),
        decreases pairs.len() - i,
    {
        let (x, y) = pairs[i];
        proof {
            assert(pairs@.take(i + 1).drop_last() =~= pairs@.take(i as int));
        }
        if x != y {
            s.append("│  ");
        } else {
            s.append("   ");
        }
        i = i + 1;
    }
    assert(pairs@.take(i as int) =~= pairs@);
    let n: usize = road.unicode_len();
    if n > 0 {
        if road.get_char(n - 1) == 'u' {
            s.append("╭──");
        } else {
            s.append("╰──");
        }
    }
    s
}

} // verus!
