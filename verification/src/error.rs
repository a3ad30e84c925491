//! The error a failed training run reports.

use vstd::prelude::*;
use vstd::string::StringExecFns;

verus! {

/// The character for one decimal digit.
pub open spec fn dec_digit(d: int) -> char {
    if d == 0 {
        '0'
    } else if d == 1 {
        '1'
    } else if d == 2 {
        '2'
    } else if d == 3 {
        '3'
    } else if d == 4 {
        '4'
    } else if d == 5 {
        '5'
    } else if d == 6 {
        '6'
    } else if d == 7 {
        '7'
    } else if d == 8 {
        '8'
    } else {
        '9'
    }
}

/// The decimal digits of a positive number, most significant first;
/// empty for zero.
pub open spec fn dec_rep(n: int) -> Seq<char>
    decreases n,
{
    if n <= 0 {
        Seq::empty()
    } else {
        dec_rep(n / 10) + seq![dec_digit(n % 10)]
    }
}

/// The decimal rendering of a non-negative number.
pub open spec fn dec_str(n: int) -> Seq<char> {
    if n == 0 {
        seq!['0']
    } else {
        dec_rep(n)
    }
}

/// The digits of a collected digit stack, last first.
spec fn chars_rev(digs: Seq<usize>) -> Seq<char>
    decreases digs.len(),
{
    if digs.len() == 0 {
        Seq::empty()
    } else {
        seq![dec_digit(digs.last() as int)] + chars_rev(digs.drop_last())
    }
}

/// The reversed digit stack reads each digit from the other end.
proof fn lemma_chars_rev_index(s: Seq<usize>, i: int)
    requires
        0 <= i < s.len(),
    ensures
        chars_rev(s).len() == s.len(),
        chars_rev(s)[i] == dec_digit(s[s.len() - 1 - i] as int),
    decreases s.len(),
{
    lemma_chars_rev_len(s);
    if i > 0 {
        lemma_chars_rev_index(s.drop_last(), i - 1);
    }
}

/// The digit stack and its rendering have one character per digit.
proof fn lemma_chars_rev_len(s: Seq<usize>)
    ensures
        chars_rev(s).len() == s.len(),
    decreases s.len(),
{
    if s.len() > 0 {
        lemma_chars_rev_len(s.drop_last());
    }
}

/// One decimal digit as text.
fn digit_str(d: usize) -> (r: &'static str)
    requires
        d < 10,
    ensures
        r@ == seq![dec_digit(d as int)],
{
    if d == 0 {
        proof {
            reveal_strlit("0");
        }
        let r: &'static str = "0";
        proof {
            assert(r@ =~= seq![dec_digit(d as int)]);
        }
        r
    } else if d == 1 {
        proof {
            reveal_strlit("1");
        }
        let r: &'static str = "1";
        proof {
            assert(r@ =~= seq![dec_digit(d as int)]);
        }
        r
    } else if d == 2 {
        proof {
            reveal_strlit("2");
        }
        let r: &'static str = "2";
        proof {
            assert(r@ =~= seq![dec_digit(d as int)]);
        }
        r
    } else if d == 3 {
        proof {
            reveal_strlit("3");
        }
        let r: &'static str = "3";
        proof {
            assert(r@ =~= seq![dec_digit(d as int)]);
        }
        r
    } else if d == 4 {
        proof {
            reveal_strlit("4");
        }
        let r: &'static str = "4";
        proof {
            assert(r@ =~= seq![dec_digit(d as int)]);
        }
        r
    } else if d == 5 {
        proof {
            reveal_strlit("5");
        }
        let r: &'static str = "5";
        proof {
            assert(r@ =~= seq![dec_digit(d as int)]);
        }
        r
    } else if d == 6 {
        proof {
            reveal_strlit("6");
        }
        let r: &'static str = "6";
        proof {
            assert(r@ =~= seq![dec_digit(d as int)]);
        }
        r
    } else if d == 7 {
        proof {
            reveal_strlit("7");
        }
        let r: &'static str = "7";
        proof {
            assert(r@ =~= seq![dec_digit(d as int)]);
        }
        r
    } else if d == 8 {
        proof {
            reveal_strlit("8");
        }
        let r: &'static str = "8";
        proof {
            assert(r@ =~= seq![dec_digit(d as int)]);
        }
        r
    } else {
        proof {
            reveal_strlit("9");
        }
        let r: &'static str = "9";
        proof {
            assert(r@ =~= seq![dec_digit(d as int)]);
        }
        r
    }
}

/// The decimal rendering of a count.
fn dec_string(n: usize) -> (r: String)
    ensures
        r@ == dec_str(n as int),
{
    if n == 0 {
        let r: String = String::from_str(digit_str(0));
        return r;
    }
    let mut digs: Vec<usize> = Vec::new();
    let mut rest: usize = n;
    while rest > 0
        invariant
            dec_rep(n as int) == dec_rep(rest as int) + chars_rev(digs@),
            forall|u: int| 0 <= u < digs@.len() ==> #[trigger] digs@[u] < 10,
        decreases rest,
    {
        let d: usize = rest % 10;
        let ghost digs_pre = digs@;
        let ghost rest_pre = rest as int;
        digs.push(d);
        rest = rest / 10;
        proof {
            assert(digs@.drop_last() =~= digs_pre);
            assert(dec_rep(rest_pre) == dec_rep(rest as int) + seq![dec_digit(d as int)]);
            assert(dec_rep(rest as int) + chars_rev(digs@) =~= (dec_rep(rest as int) + seq![
                dec_digit(d as int)]) + chars_rev(digs_pre));
        }
    }
    proof {
        assert(dec_rep(n as int) =~= chars_rev(digs@));
    }
    let mut out: String = String::new();
    let total: usize = digs.len();
    let mut t: usize = total;
    while t > 0
        invariant
            t <= total,
            total == digs@.len(),
            forall|u: int| 0 <= u < total ==> #[trigger] digs@[u] < 10,
            dec_rep(n as int) == chars_rev(digs@),
            out@ == chars_rev(digs@).take(total - t),
        decreases t,
    {
        t = t - 1;
        proof {
            lemma_chars_rev_index(digs@, total - 1 - t);
        }
        out.append(digit_str(digs[t]));
        proof {
            assert(out@ =~= chars_rev(digs@).take(total - t));
        }
    }
    proof {
        lemma_chars_rev_len(digs@);
        assert(chars_rev(digs@).take(total as int) =~= chars_rev(digs@));
    }
    out
}

/// Returned when fitting is rejected before any optimization takes place:
/// the number of feature rows does not match the number of labels. Both
/// counts are carried so the caller can report them.
#[derive(Clone, Copy, Debug, PartialEq, Eq, Structural)]
pub struct Failed {
    /// Number of feature rows the caller supplied.
    pub rows: usize,
    /// Number of labels the caller supplied.
    pub labels: usize,
}

impl Failed {
    /// A fit failure carrying the two mismatched counts.
    pub fn fit(rows: usize, labels: usize) -> (r: Failed)
        ensures
            r.rows == rows,
            r.labels == labels,
    {
        Failed { rows, labels }
    }

    /// The two counts, in the order they were supplied.
    pub fn counts(&self) -> (r: (usize, usize))
        ensures
            r.0 == self.rows,
            r.1 == self.labels,
    {
        (self.rows, self.labels)
    }

    /// What a failure's message says: both counts, rendered in decimal.
    pub open spec fn message_spec(rows: int, labels: int) -> Seq<char> {
        "number of feature rows ("@ + dec_str(rows) + ") does not match number of labels ("@
            + dec_str(labels) + ")"@
    }

    /// The human-readable report of the failure, carrying both counts.
    pub fn message(&self) -> (r: String)
        ensures
            r@ == Self::message_spec(self.rows as int, self.labels as int),
    {
        let mut out: String = String::from_str("number of feature rows (");
        let rows_text: String = dec_string(self.rows);
        out.append(rows_text.as_str());
        out.append(") does not match number of labels (");
        let labels_text: String = dec_string(self.labels);
        out.append(labels_text.as_str());
        out.append(")");
        proof {
            assert(out@ =~= Self::message_spec(self.rows as int, self.labels as int));
        }
        out
    }
}

} // verus!
