//! Calorie counting: blank-line-separated blocks of numbers are summed per
//! block, and the sums are handed back in descending order.

use vstd::prelude::*;
use vstd::seq_lib::lemma_multiset_commutative;
use vstd::multiset::Multiset;
use crate::text::lines_of;
use crate::text::to_lines;
use crate::text::is_int_token;
use crate::text::int_token_val;
use crate::text::parse_i64;

verus! {

/// The block sums, in input order: a blank line closes the running block,
/// and the final block is always closed at the end.
pub open spec fn sums_of(ls: Seq<Seq<char>>, acc: int) -> Seq<int>
    decreases ls.len(),
{
    if ls.len() == 0 {
        seq![acc]
    } else if ls[0].len() == 0 {
        seq![acc] + sums_of(ls.drop_first(), 0)
    } else {
        sums_of(ls.drop_first(), acc + int_token_val(ls[0]))
    }
}

/// Every non-blank line is a signed number, and every running sum stays
/// within `i64`.
pub open spec fn sums_ok(ls: Seq<Seq<char>>, acc: int) -> bool
    decreases ls.len(),
{
    if ls.len() == 0 {
        true
    } else if ls[0].len() == 0 {
        sums_ok(ls.drop_first(), 0)
    } else {
        &&& is_int_token(ls[0])
        &&& i64::MIN <= acc + int_token_val(ls[0]) <= i64::MAX
        &&& sums_ok(ls.drop_first(), acc + int_token_val(ls[0]))
    }
}

/// The values of a vector of numbers, as integers.
pub open spec fn ivals(s: Seq<i64>) -> Seq<int> {
    Seq::new(s.len(), |i: int| s[i] as int)
}

pub open spec fn sorted_desc(s: Seq<int>) -> bool {
    forall|i: int, j: int| 0 <= i <= j < s.len() ==> s[i] >= s[j]
}

/// Inserting an element anywhere adds exactly it to the multiset.
proof fn lemma_insert_multiset(s: Seq<int>, pos: int, x: int)
    requires
        0 <= pos <= s.len(),
    ensures
        (s.take(pos) + seq![x] + s.skip(pos)).to_multiset() == s.to_multiset().insert(x),
{
    broadcast use vstd::seq_lib::group_to_multiset_ensures;

    let a = s.take(pos);
    let b = s.skip(pos);
    assert(s =~= a + b);
    lemma_multiset_commutative(a, b);
    lemma_multiset_commutative(a + seq![x], b);
    assert(a + seq![x] =~= a.push(x));
    assert((a + seq![x] + b) =~= (a + seq![x]) + b);
    assert((a.push(x)).to_multiset() =~= a.to_multiset().insert(x));
    assert((a + seq![x] + b).to_multiset() =~= s.to_multiset().insert(x));
}

/// Inserts `x` into a descending vector, keeping it descending.
fn insert_desc(out: Vec<i64>, x: i64) -> (r: Vec<i64>)
    requires
        sorted_desc(ivals(out@)),
    ensures
        sorted_desc(ivals(r@)),
        ivals(r@).to_multiset() == ivals(out@).to_multiset().insert(x as int),
{
    let mut out = out;
    let mut pos: usize = 0;
    while pos < out.len() && out[pos] >= x
        invariant
            sorted_desc(ivals(out@)),
            pos <= out@.len(),
            forall|i: int| 0 <= i < pos ==> ivals(out@)[i] >= x as int,
        decreases out@.len() - pos,
    {
        pos = pos + 1;
    }
    let ghost old_iv = ivals(out@);
    proof {
        if pos < out@.len() {
            assert(ivals(out@)[pos as int] < x as int);
        }
    }
    out.insert(pos, x);
    proof {
        let niv = ivals(out@);
        assert(niv =~= old_iv.take(pos as int) + seq![x as int] + old_iv.skip(pos as int));
        lemma_insert_multiset(old_iv, pos as int, x as int);
        assert forall|i: int, j: int| 0 <= i <= j < niv.len() implies niv[i] >= niv[j] by {
            if i < pos && j == pos {
            } else if i == pos && j > pos {
                assert(niv[j] == old_iv[j - 1]);
                assert(old_iv[pos as int] >= old_iv[j - 1]);
            } else if i < pos && j > pos {
                assert(niv[i] == old_iv[i]);
                assert(niv[j] == old_iv[j - 1]);
            } else if i > pos && j > pos {
                assert(niv[i] == old_iv[i - 1]);
                assert(niv[j] == old_iv[j - 1]);
            } else if i < pos && j < pos {
                assert(niv[i] == old_iv[i]);
                assert(niv[j] == old_iv[j]);
            }
        }
    }
    out
}

/// Parses the blocks and returns their sums, largest first. Fails exactly
/// when a non-blank line is not a number or a running sum leaves `i64`.
pub fn parse(input: &str) -> (r: Option<Vec<i64>>)
    ensures
        ({
            let ls = lines_of(input@);
            match r {
                Some(v) => sums_ok(ls, 0) && sorted_desc(ivals(v@)) && ivals(v@).to_multiset()
                    == sums_of(ls, 0).to_multiset(),
                None => !sums_ok(ls, 0),
            }
        }),
{
    let ghost ls = lines_of(input@);
    let lines = to_lines(input);
    let n = lines.len();
    let mut out: Vec<i64> = Vec::new();
    let mut buffer: i64 = 0;
    let ghost mut collected: Multiset<int> = Multiset::empty();
    let mut i: usize = 0;
    proof {
        assert(ls.skip(0) =~= ls);
        broadcast use vstd::seq_lib::group_to_multiset_ensures;

        assert(ivals(out@) =~= Seq::<int>::empty());
        assert(ivals(out@).to_multiset() =~= Multiset::<int>::empty());
    }
    while i < n
        invariant
            ls == lines_of(input@),
            n == ls.len(),
            lines@.len() == n,
            forall|t: int| 0 <= t < n ==> #[trigger] lines@[t]@ == ls[t],
            i <= n,
            sorted_desc(ivals(out@)),
            ivals(out@).to_multiset() == collected,
            sums_ok(ls, 0) <==> sums_ok(ls.skip(i as int), buffer as int),
            sums_of(ls, 0).to_multiset() == collected.add(
                sums_of(ls.skip(i as int), buffer as int).to_multiset(),
            ),
        decreases n - i,
    {
        proof {
            assert(ls.skip(i as int)[0] == ls[i as int]);
            assert(ls.skip(i as int).drop_first() =~= ls.skip(i + 1));
        }
        let line = &lines[i];
        if line.len() == 0 {
            let ghost pre = ivals(out@).to_multiset();
            out = insert_desc(out, buffer);
            proof {
                collected = collected.insert(buffer as int);
                broadcast use vstd::seq_lib::group_to_multiset_ensures;

                let rest = sums_of(ls.skip(i + 1), 0);
                assert(sums_of(ls.skip(i as int), buffer as int) =~= seq![buffer as int] + rest);
                lemma_multiset_commutative(seq![buffer as int], rest);
                assert(seq![buffer as int] =~= Seq::<int>::empty().push(buffer as int));
                assert(seq![buffer as int].to_multiset() =~= Multiset::<int>::empty().insert(
                    buffer as int,
                ));
            }
            buffer = 0;
        } else {
            let v = match parse_i64(line) {
                Some(v) => v,
                None => {
                    return None;
                },
            };
            let ghost bnext = buffer as int + v as int;
            if v >= 0 {
                if buffer > i64::MAX - v {
                    proof {
                        assert(!sums_ok(ls.skip(i as int), buffer as int));
                    }
                    return None;
                }
            } else {
                if buffer < i64::MIN - v {
                    proof {
                        assert(!sums_ok(ls.skip(i as int), buffer as int));
                    }
                    return None;
                }
            }
            buffer = buffer + v;
        }
        i = i + 1;
    }
    let ghost pre = ivals(out@).to_multiset();
    out = insert_desc(out, buffer);
    proof {
        assert(ls.skip(n as int) =~= Seq::<Seq<char>>::empty());
        broadcast use vstd::seq_lib::group_to_multiset_ensures;

        assert(sums_of(ls.skip(n as int), buffer as int) =~= seq![buffer as int]);
        assert(seq![buffer as int] =~= Seq::<int>::empty().push(buffer as int));
        assert(seq![buffer as int].to_multiset() =~= Multiset::<int>::empty().insert(
            buffer as int,
        ));
        assert(ivals(out@).to_multiset() =~= sums_of(ls, 0).to_multiset());
    }
    Some(out)
}

/// The largest block sum: the first element of the sorted list.
pub fn part1(calories: &Vec<i64>) -> (r: i64)
    requires
        calories@.len() >= 1,
    ensures
        r == calories@[0],
{
    calories[0]
}

/// The sum of the first `k` entries.
pub open spec fn sum_first(s: Seq<int>, k: int) -> int
    decreases k,
{
    if k <= 0 {
        0
    } else {
        sum_first(s, k - 1) + s[k - 1]
    }
}

/// The sum of up to the three largest block sums: the first three entries
/// of the sorted list (or all of them, when there are fewer).
pub fn part2(calories: &Vec<i64>) -> (r: i64)
    requires
        forall|k: int|
            1 <= k <= 3 && k <= calories@.len() ==> i64::MIN <= #[trigger] sum_first(
                ivals(calories@),
                k,
            ) <= i64::MAX,
    ensures
        r == sum_first(ivals(calories@), (if calories@.len() < 3 {
            calories@.len() as int
        } else {
            3
        })),
{
    let mut acc: i64 = 0;
    let mut k: usize = 0;
    while k < 3 && k < calories.len()
        invariant
            forall|t: int|
                1 <= t <= 3 && t <= calories@.len() ==> i64::MIN <= #[trigger] sum_first(
                    ivals(calories@),
                    t,
                ) <= i64::MAX,
            k <= 3,
            k <= calories@.len(),
            acc == sum_first(ivals(calories@), k as int),
        decreases 3 - k,
    {
        proof {
            assert(sum_first(ivals(calories@), k + 1) == acc + ivals(calories@)[k as int]);
            assert(ivals(calories@)[k as int] == calories@[k as int]);
        }
        acc = acc + calories[k];
        k = k + 1;
    }
    acc
}

} // verus!
