//! The matrix as text, one table per line, for debugging.

use vstd::prelude::*;
use vstd::string::StringExecFns;

use crate::cell::Cell;
use crate::llist::Link;
use crate::matrix::{MatView, Matrix};

verus! {

/// The character of decimal digit `d`.
pub open spec fn digit_char(d: int) -> char {
    (48 + d) as char
}

/// `x` in decimal.
pub open spec fn dec(x: nat) -> Seq<char>
    decreases x,
{
    if x < 10 {
        seq![digit_char(x as int)]
    } else {
        dec(x / 10).push(digit_char((x % 10) as int))
    }
}

/// `k` spaces.
pub open spec fn spaces(k: nat) -> Seq<char> {
    Seq::new(k, |i: int| ' ')
}

/// `s` centred in a field of width `w`, the odd space going right.
pub open spec fn centered(s: Seq<char>, w: nat) -> Seq<char> {
    if s.len() >= w {
        s
    } else {
        let pad = (w - s.len()) as nat;
        spaces(pad / 2) + s + spaces((pad - pad / 2) as nat)
    }
}

/// Numbers, each centred in a field of 5.
pub open spec fn cells_line(xs: Seq<usize>) -> Seq<char>
    decreases xs.len(),
{
    if xs.len() == 0 {
        Seq::empty()
    } else {
        cells_line(xs.drop_last()) + centered(dec(xs.last() as nat), 5)
    }
}

/// Links, each as ` prev|next `.
pub open spec fn links_line(ls: Seq<Link>) -> Seq<char>
    decreases ls.len(),
{
    if ls.len() == 0 {
        Seq::empty()
    } else {
        links_line(ls.drop_last()) + seq![' '] + dec(ls.last().prev.0 as nat) + seq!['|'] + dec(ls.last().next.0 as nat) + seq![' ']
    }
}

/// Column headers counted from 0 (the root shows as 0 too).
pub open spec fn header_numbers(c: Seq<Cell>) -> Seq<usize> {
    c.map_values(|k: Cell| if k.0 > 0 { (k.0 - 1) as usize } else { 0usize })
}

/// The node numbers 0, 1, ..., n - 1.
pub open spec fn node_numbers(n: nat) -> Seq<usize> {
    Seq::new(n, |i: int| i as usize)
}

/// The text of a matrix: sizes, column of each node, horizontal links,
/// vertical links, and node numbers, one line each.
pub open spec fn render_spec(v: MatView) -> Seq<char> {
    seq!['s', ':', ' '] + cells_line(v.size) + seq!['\n'] + seq!['c', ':', ' '] + cells_line(header_numbers(v.c))
        + seq!['\n'] + seq!['x', ':', ' '] + links_line(v.x) + seq!['\n'] + seq!['y', ':', ' '] + links_line(v.y)
        + seq!['\n'] + seq!['i', ':', ' '] + cells_line(node_numbers(v.x.len())) + seq!['\n']
}

/// The digit `d` as text.
fn digit_str(d: usize) -> (r: &'static str)
    requires
        d < 10,
    ensures
        r@ == seq![digit_char(d as int)],
{
    proof {
        reveal_strlit("0");
        reveal_strlit("1");
        reveal_strlit("2");
        reveal_strlit("3");
        reveal_strlit("4");
        reveal_strlit("5");
        reveal_strlit("6");
        reveal_strlit("7");
        reveal_strlit("8");
        reveal_strlit("9");
    }
    match d {
        0 => "0",
        1 => "1",
        2 => "2",
        3 => "3",
        4 => "4",
        5 => "5",
        6 => "6",
        7 => "7",
        8 => "8",
        _ => "9",
    }
}

/// Append `x` in decimal.
fn push_dec(s: &mut String, x: usize)
    ensures
        final(s)@ == old(s)@ + dec(x as nat),
    decreases x,
{
    if x >= 10 {
        push_dec(s, x / 10);
    }
    let d = digit_str(x % 10);
    s.append(d);
    proof {
        if x >= 10 {
            assert(dec(x as nat) == dec((x / 10) as nat).push(digit_char((x % 10) as int)));
        }
    }
}

/// How many decimal digits `x` has.
fn num_digits(x: usize) -> (r: usize)
    ensures
        r == dec(x as nat).len(),
    decreases x,
{
    proof {
        lemma_dec_len(x as nat);
    }
    if x < 10 {
        1
    } else {
        let r = num_digits(x / 10);
        proof {
            lemma_dec_len((x / 10) as nat);
        }
        r + 1
    }
}

/// A number has no more decimal digits than it is large, plus one.
proof fn lemma_dec_len(x: nat)
    ensures
        dec(x).len() <= x + 1,
    decreases x,
{
    if x >= 10 {
        lemma_dec_len(x / 10);
    }
}

/// Append `k` spaces.
fn push_spaces(s: &mut String, k: usize)
    ensures
        final(s)@ == old(s)@ + spaces(k as nat),
{
    let ghost s0 = s@;
    let mut i: usize = 0;
    while i < k
        invariant
            0 <= i <= k,
            s@ == s0 + spaces(i as nat),
        decreases k - i,
    {
        proof {
            reveal_strlit(" ");
        }
        s.append(" ");
        proof {
            assert(s@ =~= s0 + spaces((i + 1) as nat));
        }
        i = i + 1;
    }
}

/// Append `x` centred in a field of 5.
fn push_centered(s: &mut String, x: usize)
    ensures
        final(s)@ == old(s)@ + centered(dec(x as nat), 5),
{
    let ghost s0 = s@;
    let len = num_digits(x);
    if len >= 5 {
        push_dec(s, x);
    } else {
        let pad = 5 - len;
        push_spaces(s, pad / 2);
        push_dec(s, x);
        push_spaces(s, pad - pad / 2);
        proof {
            assert(s@ =~= s0 + centered(dec(x as nat), 5));
        }
    }
}

/// Append a line of numbers, each centred in a field of 5.
fn push_cells(s: &mut String, xs: &Vec<usize>)
    ensures
        final(s)@ == old(s)@ + cells_line(xs@),
{
    let ghost s0 = s@;
    let mut i: usize = 0;
    while i < xs.len()
        invariant
            0 <= i <= xs@.len(),
            s@ == s0 + cells_line(xs@.take(i as int)),
        decreases xs@.len() - i,
    {
        push_centered(s, xs[i]);
        proof {
            assert(xs@.take(i + 1).drop_last() =~= xs@.take(i as int));
            assert(s@ =~= s0 + cells_line(xs@.take(i + 1)));
        }
        i = i + 1;
    }
    proof {
        assert(xs@.take(xs@.len() as int) =~= xs@);
    }
}

/// Append a line of links, each as ` prev|next `.
fn push_links(s: &mut String, ls: &Vec<Link>)
    ensures
        final(s)@ == old(s)@ + links_line(ls@),
{
    let ghost s0 = s@;
    let mut i: usize = 0;
    while i < ls.len()
        invariant
            0 <= i <= ls@.len(),
            s@ == s0 + links_line(ls@.take(i as int)),
        decreases ls@.len() - i,
    {
        proof {
            reveal_strlit(" ");
            reveal_strlit("|");
        }
        s.append(" ");
        push_dec(s, ls[i].prev.0);
        s.append("|");
        push_dec(s, ls[i].next.0);
        s.append(" ");
        proof {
            assert(ls@.take(i + 1).drop_last() =~= ls@.take(i as int));
            assert(s@ =~= s0 + links_line(ls@.take(i + 1)));
        }
        i = i + 1;
    }
    proof {
        assert(ls@.take(ls@.len() as int) =~= ls@);
    }
}

impl Matrix {
    /// The matrix as text: the column sizes, each node's column (counted
    /// from 0), the horizontal and the vertical links, and the node
    /// numbers, one line each.
    pub fn render(&self) -> (r: String)
        ensures
            r@ == render_spec(self@),
    {
        proof {
            reveal_strlit("s: ");
            reveal_strlit("c: ");
            reveal_strlit("x: ");
            reveal_strlit("y: ");
            reveal_strlit("i: ");
            reveal_strlit("\n");
        }
        let mut s = String::new();
        s.append("s: ");
        push_cells(&mut s, &self.size);
        s.append("\n");
        s.append("c: ");
        let mut hs: Vec<usize> = Vec::with_capacity(self.c.len());
        let mut k: usize = 0;
        while k < self.c.len()
            invariant
                0 <= k <= self.c@.len(),
                hs@ == header_numbers(self.c@.take(k as int)),
            decreases self.c@.len() - k,
        {
            let h = self.c[k].0;
            hs.push(if h > 0 { h - 1 } else { 0 });
            proof {
                assert(hs@ =~= header_numbers(self.c@.take(k + 1)));
            }
            k = k + 1;
        }
        proof {
            assert(self.c@.take(self.c@.len() as int) =~= self.c@);
        }
        push_cells(&mut s, &hs);
        s.append("\n");
        s.append("x: ");
        push_links(&mut s, &self.x.data);
        s.append("\n");
        s.append("y: ");
        push_links(&mut s, &self.y.data);
        s.append("\n");
        s.append("i: ");
        let mut ids: Vec<usize> = Vec::with_capacity(self.x.data.len());
        let mut i: usize = 0;
        while i < self.x.data.len()
            invariant
                0 <= i <= self.x.data@.len(),
                ids@ == node_numbers(i as nat),
            decreases self.x.data@.len() - i,
        {
            ids.push(i);
            proof {
                assert(ids@ =~= node_numbers((i + 1) as nat));
            }
            i = i + 1;
        }
        push_cells(&mut s, &ids);
        s.append("\n");
        proof {
            assert(s@ =~= render_spec(self@));
        }
        s
    }
}

} // verus!
