//! The names of the files in a queue directory, and what a lock that is
//! already held means.
use vstd::prelude::*;
use vstd::string::StringExecFns;

verus! {

/// The character of a decimal digit.
pub open spec fn digit_char(d: int) -> char {
    if d == 0 {
        '0'
    } else if d == 1 {
        '1'
    } else if d == 2 {
        '2'
    } else if d == 3 {
        '3'
    } else if d == 4 {
        '4'
    } else if d == 5 {
        '5'
    } else if d == 6 {
        '6'
    } else if d == 7 {
        '7'
    } else if d == 8 {
        '8'
    } else {
        '9'
    }
}

/// The decimal digits of `n`, most significant first, without leading zeros.
pub open spec fn decimal(n: nat) -> Seq<char>
    decreases n,
{
    if n < 10 {
        seq![digit_char(n as int)]
    } else {
        decimal(n / 10) + seq![digit_char((n % 10) as int)]
    }
}

/// The name of the file of segment `segment`.
pub open spec fn segment_name(segment: u64) -> Seq<char> {
    decimal(segment as nat) + seq!['.', 'q']
}

/// Each number has digits of its own: distinct numbers have distinct decimal
/// forms, so distinct segments have distinct file names.
pub proof fn lemma_segment_name_injective(a: u64, b: u64)
    ensures
        segment_name(a) == segment_name(b) ==> a == b,
{
    if segment_name(a) == segment_name(b) {
        let sa = segment_name(a);
        let sb = segment_name(b);
        assert(sa.drop_last().drop_last() =~= decimal(a as nat));
        assert(sb.drop_last().drop_last() =~= decimal(b as nat));
        lemma_decimal_injective(a as nat, b as nat);
    }
}

/// A decimal form has at least one digit.
proof fn lemma_decimal_len(n: nat)
    ensures
        decimal(n).len() >= 1,
        n >= 10 ==> decimal(n).len() >= 2,
    decreases n,
{
    if n >= 10 {
        lemma_decimal_len(n / 10);
    }
}

/// Distinct numbers have distinct decimal forms.
proof fn lemma_decimal_injective(a: nat, b: nat)
    ensures
        decimal(a) == decimal(b) ==> a == b,
    decreases a,
{
    if decimal(a) == decimal(b) {
        lemma_decimal_len(a);
        lemma_decimal_len(b);
        let da = decimal(a);
        if a < 10 && b < 10 {
            assert(da[0] == digit_char(a as int));
            assert(decimal(b)[0] == digit_char(b as int));
        } else if a >= 10 && b >= 10 {
            assert(da.drop_last() =~= decimal(a / 10));
            assert(decimal(b).drop_last() =~= decimal(b / 10));
            lemma_decimal_injective(a / 10, b / 10);
            assert(da.last() == digit_char((a % 10) as int));
            assert(decimal(b).last() == digit_char((b % 10) as int));
        } else if a < 10 {
            lemma_decimal_len(b);
        } else {
            lemma_decimal_len(a);
        }
    }
}

/// The string of one decimal digit.
fn digit_str(d: u64) -> (r: &'static str)
    requires
        d < 10,
    ensures
        r@ == seq![digit_char(d as int)],
{
    proof {
        reveal_strlit("0");
        reveal_strlit("1");
        reveal_strlit("2");
        reveal_strlit("3");
        reveal_strlit("4");
        reveal_strlit("5");
        reveal_strlit("6");
        reveal_strlit("7");
        reveal_strlit("8");
        reveal_strlit("9");
    }
    let r = if d == 0 {
        "0"
    } else if d == 1 {
        "1"
    } else if d == 2 {
        "2"
    } else if d == 3 {
        "3"
    } else if d == 4 {
        "4"
    } else if d == 5 {
        "5"
    } else if d == 6 {
        "6"
    } else if d == 7 {
        "7"
    } else if d == 8 {
        "8"
    } else {
        "9"
    };
    assert(r@ =~= seq![digit_char(d as int)]);
    r
}

/// The decimal digits of `n`.
fn decimal_string(n: u64) -> (r: String)
    ensures
        r@ == decimal(n as nat),
    decreases n,
{
    if n < 10 {
        String::from_str(digit_str(n))
    } else {
        let mut s = decimal_string(n / 10);
        s.append(digit_str(n % 10));
        s
    }
}

/// The name of the file of segment `segment`, inside the queue directory.
pub fn segment_filename(segment: u64) -> (r: String)
    ensures
        r@ == segment_name(segment),
{
    let mut s = decimal_string(segment);
    proof {
        reveal_strlit(".q");
    }
    s.append(".q");
    assert(s@ =~= segment_name(segment));
    s
}

/// The name of the receiver's lock file, inside the queue directory.
pub fn recv_lock_filename() -> (r: String)
    ensures
        r@ == seq!['r', 'e', 'c', 'v', '.', 'l', 'o', 'c', 'k'],
{
    proof {
        reveal_strlit("recv.lock");
    }
    String::from_str("recv.lock")
}

/// The name of the sender's lock file, inside the queue directory.
pub fn send_lock_filename() -> (r: String)
    ensures
        r@ == seq!['s', 'e', 'n', 'd', '.', 'l', 'o', 'c', 'k'],
{
    proof {
        reveal_strlit("send.lock");
    }
    String::from_str("send.lock")
}

/// Why one side of a queue cannot be taken.
#[derive(Clone, Copy, Debug, PartialEq, Eq, Structural)]
pub enum QueueError {
    /// Another process holds the sender's lock.
    SenderInUse,
    /// Another process holds the receiver's lock.
    ReceiverInUse,
}

/// Turns the outcome of trying the receiver's lock into the lock itself, or,
/// where the lock was held elsewhere (`None`), into the error that says so.
pub fn try_acquire_recv_lock<G>(lock: Option<G>) -> (r: Result<G, QueueError>)
    ensures
        match lock {
            Some(g) => r == Ok::<G, QueueError>(g),
            None => r == Err::<G, QueueError>(QueueError::ReceiverInUse),
        },
{
    match lock {
        Some(g) => Ok(g),
        None => Err(QueueError::ReceiverInUse),
    }
}

/// Turns the outcome of trying the sender's lock into the lock itself, or,
/// where the lock was held elsewhere (`None`), into the error that says so.
pub fn try_acquire_send_lock<G>(lock: Option<G>) -> (r: Result<G, QueueError>)
    ensures
        match lock {
            Some(g) => r == Ok::<G, QueueError>(g),
            None => r == Err::<G, QueueError>(QueueError::SenderInUse),
        },
{
    match lock {
        Some(g) => Ok(g),
        None => Err(QueueError::SenderInUse),
    }
}

} // verus!
