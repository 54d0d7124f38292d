//! The distance engine: Levenshtein edit distance between character
//! sequences, with its metric laws and a two-row Wagner-Fischer
//! implementation.

use vstd::prelude::*;

verus! {

/// The smallest of three natural numbers.
pub open spec fn min3(x: nat, y: nat, z: nat) -> nat {
    if x <= y && x <= z {
        x
    } else if y <= z {
        y
    } else {
        z
    }
}

/// The Levenshtein edit distance between `a` and `b`: the least number of
/// single-character insertions, deletions and substitutions (each of cost 1)
/// that turns `a` into `b`.
pub open spec fn edit_dist(a: Seq<char>, b: Seq<char>) -> nat
    decreases a.len() + b.len(),
{
    if a.len() == 0 {
        b.len()
    } else if b.len() == 0 {
        a.len()
    } else {
        let change: nat = if a.last() == b.last() {
            0
        } else {
            1
        };
        min3(
            edit_dist(a.drop_last(), b.drop_last()) + change,
            edit_dist(a.drop_last(), b) + 1,
            edit_dist(a, b.drop_last()) + 1,
        )
    }
}

/// A word at distance zero from itself: editing is never needed.
pub proof fn lemma_edit_dist_identity(a: Seq<char>)
    ensures
        edit_dist(a, a) == 0,
    decreases a.len(),
{
    if a.len() > 0 {
        lemma_edit_dist_identity(a.drop_last());
    }
}

/// The distance is symmetric: turning `a` into `b` costs exactly as much as
/// turning `b` into `a`.
pub proof fn lemma_edit_dist_symmetric(a: Seq<char>, b: Seq<char>)
    ensures
        edit_dist(a, b) == edit_dist(b, a),
    decreases a.len() + b.len(),
{
    if a.len() > 0 && b.len() > 0 {
        lemma_edit_dist_symmetric(a.drop_last(), b.drop_last());
        lemma_edit_dist_symmetric(a.drop_last(), b);
        lemma_edit_dist_symmetric(a, b.drop_last());
    }
}

/// Bounds: the distance never exceeds the longer length (substitute the
/// shared positions, then insert the rest), and never undercuts the length
/// difference (each edit changes the length by at most one).
pub proof fn lemma_edit_dist_bounds(a: Seq<char>, b: Seq<char>)
    ensures
        a.len() <= b.len() ==> edit_dist(a, b) <= b.len(),
        b.len() <= a.len() ==> edit_dist(a, b) <= a.len(),
        edit_dist(a, b) + a.len() >= b.len(),
        edit_dist(a, b) + b.len() >= a.len(),
    decreases a.len() + b.len(),
{
    if a.len() > 0 && b.len() > 0 {
        lemma_edit_dist_bounds(a.drop_last(), b.drop_last());
        lemma_edit_dist_bounds(a.drop_last(), b);
        lemma_edit_dist_bounds(a, b.drop_last());
    }
}

/// The triangle inequality: editing `a` into `b` and then `b` into `c` is one
/// way to edit `a` into `c`, so the direct distance can cost no more.
pub proof fn lemma_edit_dist_triangle(a: Seq<char>, b: Seq<char>, c: Seq<char>)
    ensures
        edit_dist(a, c) <= edit_dist(a, b) + edit_dist(b, c),
    decreases a.len() + b.len() + c.len(),
{
    if b.len() == 0 {
        lemma_edit_dist_bounds(a, c);
    } else if a.len() == 0 {
        lemma_edit_dist_bounds(b, c);
    } else if c.len() == 0 {
        lemma_edit_dist_bounds(a, b);
    } else {
        let a1 = a.drop_last();
        let b1 = b.drop_last();
        let c1 = c.drop_last();
        let change_ab: nat = if a.last() == b.last() {
            0
        } else {
            1
        };
        let change_bc: nat = if b.last() == c.last() {
            0
        } else {
            1
        };
        if edit_dist(a, b) == edit_dist(a1, b) + 1 {
            // a drops its last character first; the rest is a shorter trip.
            lemma_edit_dist_triangle(a1, b, c);
        } else if edit_dist(b, c) == edit_dist(b, c1) + 1 {
            // c gains its last character last; the rest is a shorter trip.
            lemma_edit_dist_triangle(a, b, c1);
        } else if edit_dist(a, b) == edit_dist(a1, b1) + change_ab && edit_dist(b, c)
            == edit_dist(b1, c1) + change_bc {
            // Both legs substitute at the end, and so may the direct trip.
            lemma_edit_dist_triangle(a1, b1, c1);
        } else if edit_dist(a, b) == edit_dist(a, b1) + 1 && edit_dist(b, c) == edit_dist(b1, c)
            + 1 {
            // b's last character is inserted and deleted again: skip it.
            lemma_edit_dist_triangle(a, b1, c);
        } else if edit_dist(a, b) == edit_dist(a, b1) + 1 && edit_dist(b, c) == edit_dist(b1, c1)
            + change_bc {
            // b's last character only carries a substitution into c's last.
            lemma_edit_dist_triangle(a, b1, c1);
        } else {
            // a substitutes into b's last, which is then deleted.
            lemma_edit_dist_triangle(a1, b1, c);
        }
    }
}

/// One cell of the Wagner-Fischer table, written over prefixes: the distance
/// between `s` up to `i + 1` and `l` up to `j + 1` comes from the three
/// neighbouring cells.
proof fn lemma_edit_dist_step(s: Seq<char>, l: Seq<char>, i: int, j: int)
    requires
        0 <= i < s.len(),
        0 <= j < l.len(),
    ensures
        edit_dist(s.take(i + 1), l.take(j + 1)) == min3(
            edit_dist(s.take(i), l.take(j)) + (if s[i] == l[j] {
                0nat
            } else {
                1nat
            }),
            edit_dist(s.take(i), l.take(j + 1)) + 1,
            edit_dist(s.take(i + 1), l.take(j)) + 1,
        ),
{
    let a = s.take(i + 1);
    let b = l.take(j + 1);
    assert(a.drop_last() =~= s.take(i));
    assert(b.drop_last() =~= l.take(j));
    assert(a.last() == s[i]);
    assert(b.last() == l[j]);
}

/// The characters of a string, one `char` per Unicode code point.
fn to_chars(s: &str) -> (r: Vec<char>)
    ensures
        r@ == s@,
{
    let n = s.unicode_len();
    let mut r: Vec<char> = Vec::new();
    let mut i: usize = 0;
    while i < n
        invariant
            i <= n,
            n == s@.len(),
            r@ == s@.take(i as int),
        decreases n - i,
    {
        r.push(s.get_char(i));
        proof {
            assert(s@.take(i as int).push(s@[i as int]) =~= s@.take(i as int + 1));
        }
        i += 1;
    }
    proof {
        assert(s@.take(n as int) =~= s@);
    }
    r
}

/// The smallest of three machine integers.
fn min3_usize(x: usize, y: usize, z: usize) -> (m: usize)
    ensures
        m as nat == min3(x as nat, y as nat, z as nat),
{
    if x <= y && x <= z {
        x
    } else if y <= z {
        y
    } else {
        z
    }
}

/// The Levenshtein edit distance between `word1` and `word2`, computed with
/// the Wagner-Fischer table held as a single working row over the longer
/// word.
pub fn wagner_fischer(word1: &str, word2: &str) -> (d: usize)
    ensures
        d as nat == edit_dist(word1@, word2@),
{
    let chars1 = to_chars(word1);
    let chars2 = to_chars(word2);
    proof {
        lemma_edit_dist_symmetric(word1@, word2@);
    }
    let (long, short) = if chars1.len() > chars2.len() {
        (chars1, chars2)
    } else {
        (chars2, chars1)
    };
    let ghost sv = short@;
    let ghost lv = long@;
    assert(edit_dist(sv, lv) == edit_dist(word1@, word2@));
    let n = long.len();
    let m = short.len();

    // The row for the empty prefix of `short`: pure insertion costs 0 ..= n.
    let mut current_row: Vec<usize> = Vec::new();
    let mut j: usize = 0;
    while j < n
        invariant
            j <= n,
            current_row@.len() == j as int,
            forall|k: int| 0 <= k < j ==> current_row@[k] == k,
        decreases n - j,
    {
        current_row.push(j);
        j += 1;
    }
    current_row.push(n);
    let row_len = current_row.len();
    assert(row_len == n + 1);
    assert forall|k: int| 0 <= k <= n implies current_row@[k] as nat == edit_dist(
        sv.take(0),
        lv.take(k),
    ) by {
        assert(sv.take(0).len() == 0);
        assert(lv.take(k).len() == k);
    }

    let mut i: usize = 0;
    while i < m
        invariant
            i <= m,
            m == sv.len(),
            n == lv.len(),
            m <= n,
            n + 1 <= usize::MAX,
            short@ == sv,
            long@ == lv,
            current_row@.len() == n + 1,
            forall|k: int|
                0 <= k <= n ==> current_row@[k] as nat == edit_dist(sv.take(i as int), lv.take(k)),
        decreases m - i,
    {
        let c = short[i];
        let mut new_row: Vec<usize> = Vec::new();
        new_row.push(i + 1);
        assert(new_row@[0] as nat == edit_dist(sv.take(i as int + 1), lv.take(0))) by {
            assert(lv.take(0).len() == 0);
            assert(sv.take(i as int + 1).len() == i + 1);
        }
        let mut j: usize = 1;
        while j <= n
            invariant
                1 <= j <= n + 1,
                i < m,
                m == sv.len(),
                n == lv.len(),
                m <= n,
                n + 1 <= usize::MAX,
                short@ == sv,
                long@ == lv,
                c == sv[i as int],
                current_row@.len() == n + 1,
                forall|k: int|
                    0 <= k <= n ==> current_row@[k] as nat == edit_dist(
                        sv.take(i as int),
                        lv.take(k),
                    ),
                new_row@.len() == j as int,
                forall|k: int|
                    0 <= k < j ==> new_row@[k] as nat == edit_dist(
                        sv.take(i as int + 1),
                        lv.take(k),
                    ),
            decreases n + 1 - j,
        {
            proof {
                lemma_edit_dist_bounds(sv.take(i as int), lv.take(j as int));
                lemma_edit_dist_bounds(sv.take(i as int), lv.take(j as int - 1));
                lemma_edit_dist_bounds(sv.take(i as int + 1), lv.take(j as int - 1));
            }
            let add = current_row[j] + 1;
            let delete = new_row[j - 1] + 1;
            let change = if long[j - 1] == c {
                current_row[j - 1]
            } else {
                current_row[j - 1] + 1
            };
            let val = min3_usize(change, add, delete);
            proof {
                lemma_edit_dist_step(sv, lv, i as int, j as int - 1);
            }
            new_row.push(val);
            j += 1;
        }
        current_row = new_row;
        i += 1;
    }
    proof {
        assert(sv.take(m as int) =~= sv);
        assert(lv.take(n as int) =~= lv);
    }
    current_row[n]
}

} // verus!
