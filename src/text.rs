use vstd::prelude::*;
use vstd::string::{StrSliceExecFns, StringExecFns};

verus! {

pub open spec fn digit(d: nat) -> char {
    if d == 0 {
        '0'
    } else if d == 1 {
        '1'
    } else if d == 2 {
        '2'
    } else if d == 3 {
        '3'
    } else if d == 4 {
        '4'
    } else if d == 5 {
        '5'
    } else if d == 6 {
        '6'
    } else if d == 7 {
        '7'
    } else if d == 8 {
        '8'
    } else {
        '9'
    }
}

/// The decimal digits of `n`, without leading zeros.
pub open spec fn decimal(n: nat) -> Seq<char>
    decreases n,
{
    if n < 10 {
        seq![digit(n)]
    } else {
        decimal(n / 10).push(digit(n % 10))
    }
}

/// The parts one after another with `sep` between each two.
pub open spec fn join(parts: Seq<Seq<char>>, sep: Seq<char>) -> Seq<char>
    decreases parts.len(),
{
    if parts.len() == 0 {
        Seq::empty()
    } else if parts.len() == 1 {
        parts[0]
    } else {
        join(parts.drop_last(), sep) + sep + parts.last()
    }
}

/// Numbers in decimal, separated by commas.
pub open spec fn comma_list(nums: Seq<nat>) -> Seq<char> {
    join(nums.map_values(|n: nat| decimal(n)), seq![','])
}

/// `k` is where the first line of `s` ends: the first line feed, or the end.
pub open spec fn line_end(s: Seq<char>, k: int) -> bool {
    &&& 0 <= k <= s.len()
    &&& k == s.len() || s[k] == '\n'
    &&& forall|j: int| 0 <= j < k ==> s[j] != '\n'
}

/// The first line of `s`: up to the first line feed, without a carriage
/// return right before it; all of `s` where it holds no line feed.
pub open spec fn first_line_of(s: Seq<char>) -> Seq<char> {
    let k = choose|k: int| line_end(s, k);
    if k < s.len() && k > 0 && s[k - 1] == '\r' {
        s.take(k - 1)
    } else {
        s.take(k)
    }
}

fn digit_str(d: usize) -> (r: &'static str)
    requires
        d < 10,
    ensures
        r@ == seq![digit(d as nat)],
{
    proof {
        reveal_strlit("0");
        reveal_strlit("1");
        reveal_strlit("2");
        reveal_strlit("3");
        reveal_strlit("4");
        reveal_strlit("5");
        reveal_strlit("6");
        reveal_strlit("7");
        reveal_strlit("8");
        reveal_strlit("9");
    }
    let r = if d == 0 {
        "0"
    } else if d == 1 {
        "1"
    } else if d == 2 {
        "2"
    } else if d == 3 {
        "3"
    } else if d == 4 {
        "4"
    } else if d == 5 {
        "5"
    } else if d == 6 {
        "6"
    } else if d == 7 {
        "7"
    } else if d == 8 {
        "8"
    } else {
        "9"
    };
    assert(r@ =~= seq![digit(d as nat)]);
    r
}

/// Append `n` in decimal.
pub fn push_decimal(out: &mut String, n: usize)
    ensures
        final(out)@ == old(out)@ + decimal(n as nat),
    decreases n,
{
    if n >= 10 {
        push_decimal(out, n / 10);
    }
    let ghost mid = out@;
    out.append(digit_str(n % 10));
    proof {
        if n >= 10 {
            assert(out@ =~= old(out)@ + decimal(n as nat));
        } else {
            assert(out@ =~= old(out)@ + decimal(n as nat));
        }
    }
}

/// Append the numbers in decimal, separated by commas.
pub fn push_comma_list(out: &mut String, nums: &Vec<usize>)
    ensures
        final(out)@ == old(out)@ + comma_list(nums@.map_values(|n: usize| n as nat)),
{
    let ghost all = nums@.map_values(|n: usize| n as nat).map_values(|n: nat| decimal(n));
    let mut i: usize = 0;
    while i < nums.len()
        invariant
            i <= nums@.len(),
            all == nums@.map_values(|n: usize| n as nat).map_values(|n: nat| decimal(n)),
            out@ == old(out)@ + join(all.take(i as int), seq![',']),
        decreases nums@.len() - i,
    {
        assert(all.take(i + 1).drop_last() =~= all.take(i as int));
        assert(all[i as int] == decimal(nums@[i as int] as nat));
        if i > 0 {
            proof {
                reveal_strlit(",");
            }
            out.append(",");
        }
        push_decimal(out, nums[i]);
        assert(out@ =~= old(out)@ + join(all.take(i + 1), seq![',']));
        i += 1;
    }
    assert(all.take(i as int) =~= all);
}

/// The first line of `s`, as the line iterator of `str` gives it.
pub fn first_line(s: &str) -> (r: String)
    ensures
        r@ == first_line_of(s@),
{
    let n = s.unicode_len();
    let mut k: usize = 0;
    while k < n
        invariant
            k <= n,
            n == s@.len(),
            forall|j: int| 0 <= j < k ==> s@[j] != '\n',
        ensures
            k <= n,
            k == n || s@[k as int] == '\n',
            forall|j: int| 0 <= j < k ==> s@[j] != '\n',
        decreases n - k,
    {
        if s.get_char(k) == '\n' {
            break;
        }
        k += 1;
    }
    assert(line_end(s@, k as int));
    let ghost c = choose|c: int| line_end(s@, c);
    assert(c == k) by {
        if c < k {
            assert(s@[c] != '\n');
        } else if c > k {
            assert(s@[k as int] != '\n');
        }
    }
    let end = if k < n && k > 0 && s.get_char(k - 1) == '\r' {
        k - 1
    } else {
        k
    };
    let r = String::from_str(s.substring_char(0, end));
    assert(r@ =~= first_line_of(s@));
    r
}

} // verus!
