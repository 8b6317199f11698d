use vstd::prelude::*;
use vstd::string::StringExecFns;

verus! {

/// The segments of a path as character sequences.
pub open spec fn segments(path: Seq<String>) -> Seq<Seq<char>> {
    path.map_values(|s: String| s@)
}

/// A policy that composes a path of key segments into one flat key.
pub trait KeyJoin {
    spec fn join_spec(&self, path: Seq<Seq<char>>) -> Seq<char>;

    fn join(&self, path: &Vec<String>) -> (r: String)
        ensures
            r@ == self.join_spec(segments(path@)),
    ;
}

/// The segments of `path` with `sep` between each two neighbours.
pub open spec fn joined(path: Seq<Seq<char>>, sep: Seq<char>) -> Seq<char>
    decreases path.len(),
{
    if path.len() == 0 {
        Seq::empty()
    } else if path.len() == 1 {
        path[0]
    } else {
        joined(path.drop_last(), sep) + sep + path.last()
    }
}

/// Joins the segments of a path with a fixed separator.
#[derive(Clone, Debug)]
pub struct Joiner {
    pub separator: String,
}

impl Joiner {
    pub fn new(separator: &str) -> (r: Joiner)
        ensures
            r.separator@ == separator@,
    {
        Joiner { separator: separator.to_owned() }
    }

    /// The joiner that puts a dot between segments.
    pub fn dot() -> (r: Joiner)
        ensures
            r.separator@ == seq!['.'],
    {
        let r = Joiner::new(".");
        proof {
            reveal_strlit(".");
        }
        r
    }
}

impl KeyJoin for Joiner {
    open spec fn join_spec(&self, path: Seq<Seq<char>>) -> Seq<char> {
        joined(path, self.separator@)
    }

    fn join(&self, path: &Vec<String>) -> (r: String) {
        let mut r = String::new();
        let n = path.len();
        let mut i: usize = 0;
        while i < n
            invariant
                n == path.len(),
                i <= n,
                r@ == joined(segments(path@).take(i as int), self.separator@),
            decreases n - i,
        {
            proof {
                let p = segments(path@);
                assert(p.take(i + 1).drop_last() =~= p.take(i as int));
            }
            if i > 0 {
                r.append(self.separator.as_str());
            }
            r.append(path[i].as_str());
            i = i + 1;
        }
        proof {
            assert(segments(path@).take(n as int) =~= segments(path@));
        }
        r
    }
}

/// A separator joiner leaves a one-segment path as that segment.
pub proof fn lemma_single_segment(j: Joiner, k: Seq<char>)
    ensures
        j.join_spec(seq![k]) == k,
{
}

/// The decimal digit for `d < 10`.
pub open spec fn digit_char(d: nat) -> char {
    if d == 0 { '0' }
    else if d == 1 { '1' }
    else if d == 2 { '2' }
    else if d == 3 { '3' }
    else if d == 4 { '4' }
    else if d == 5 { '5' }
    else if d == 6 { '6' }
    else if d == 7 { '7' }
    else if d == 8 { '8' }
    else { '9' }
}

/// The decimal form of `n`: no sign, no leading zeros.
pub open spec fn decimal(n: nat) -> Seq<char>
    decreases n,
{
    if n < 10 {
        seq![digit_char(n)]
    } else {
        decimal(n / 10).push(digit_char(n % 10))
    }
}

fn digit_str(d: usize) -> (r: &'static str)
    requires
        d < 10,
    ensures
        r@ == seq![digit_char(d as nat)],
{
    proof {
        reveal_strlit("0");
        reveal_strlit("1");
        reveal_strlit("2");
        reveal_strlit("3");
        reveal_strlit("4");
        reveal_strlit("5");
        reveal_strlit("6");
        reveal_strlit("7");
        reveal_strlit("8");
        reveal_strlit("9");
    }
    if d == 0 { "0" }
    else if d == 1 { "1" }
    else if d == 2 { "2" }
    else if d == 3 { "3" }
    else if d == 4 { "4" }
    else if d == 5 { "5" }
    else if d == 6 { "6" }
    else if d == 7 { "7" }
    else if d == 8 { "8" }
    else { "9" }
}

/// The decimal form of an array index, used as its key segment.
pub fn index_key(n: usize) -> (r: String)
    ensures
        r@ == decimal(n as nat),
    decreases n,
{
    if n < 10 {
        digit_str(n).to_owned()
    } else {
        let mut r = index_key(n / 10);
        r.append(digit_str(n % 10));
        r
    }
}

} // verus!
