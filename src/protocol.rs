//! The line protocol of the judge: what a query line holds and how a path
//! is written.
use crate::grid::{Dir, Pos, Query, GRID_LEN, NUM_TURN};
use crate::session::EnvError;
use vstd::prelude::*;

verus! {

/// The query that the numbers of a query line describe, if they are four
/// coordinates on the grid.
pub open spec fn spec_query_of(nums: Seq<u64>) -> Option<Query> {
    if nums.len() == 4 && forall|i: int| 0 <= i < 4 ==> #[trigger] nums[i] < GRID_LEN {
        Some(
            Query {
                src: Pos { r: nums[0] as u8, c: nums[1] as u8 },
                dest: Pos { r: nums[2] as u8, c: nums[3] as u8 },
            },
        )
    } else {
        None
    }
}

/// Reads the four numbers of a query line: source row and column, then
/// destination row and column, each on the grid.
pub fn query_from_numbers(nums: &[u64]) -> (r: Result<Query, EnvError>)
    ensures
        r matches Ok(q) ==> spec_query_of(nums@) == Some(q) && q.wf(),
        r is Err ==> spec_query_of(nums@) is None && r == Err::<Query, EnvError>(EnvError::MalformedLine),
        spec_query_of(nums@) is Some ==> r is Ok,
{
    if nums.len() != 4 {
        return Err(EnvError::MalformedLine);
    }
    let mut i: usize = 0;
    while i < 4
        invariant
            i <= 4,
            nums@.len() == 4,
            forall|j: int| 0 <= j < i ==> #[trigger] nums@[j] < GRID_LEN,
        decreases 4 - i,
    {
        if nums[i] >= GRID_LEN as u64 {
            return Err(EnvError::MalformedLine);
        }
        i += 1;
    }
    Ok(
        Query {
            src: Pos::new(nums[0] as u8, nums[1] as u8),
            dest: Pos::new(nums[2] as u8, nums[3] as u8),
        },
    )
}

/// The path line: one letter per move, `U`, `D`, `L` or `R`.
pub fn path_line(path: &[Dir]) -> (line: Vec<char>)
    ensures
        line@.len() == path@.len(),
        forall|i: int| 0 <= i < path@.len() ==> #[trigger] line@[i] == path@[i].spec_char(),
{
    let mut line: Vec<char> = Vec::new();
    let mut i: usize = 0;
    while i < path.len()
        invariant
            i <= path@.len(),
            line@.len() == i,
            forall|j: int| 0 <= j < i ==> #[trigger] line@[j] == path@[j].spec_char(),
        decreases path@.len() - i,
    {
        line.push(path[i].to_char());
        i += 1;
    }
    line
}

/// The response of the judge, which must fit the 32 bits of a response.
pub fn response_from_number(n: u64) -> (r: Result<u32, EnvError>)
    ensures
        n <= u32::MAX ==> r == Ok::<u32, EnvError>(n as u32),
        n > u32::MAX ==> r == Err::<u32, EnvError>(EnvError::MalformedLine),
{
    if n > u32::MAX as u64 {
        Err(EnvError::MalformedLine)
    } else {
        Ok(n as u32)
    }
}

/// The response line: exactly one number, which must fit 32 bits.
pub fn response_from_numbers(nums: &[u64]) -> (r: Result<u32, EnvError>)
    ensures
        nums@.len() == 1 && nums@[0] <= u32::MAX ==> r == Ok::<u32, EnvError>(nums@[0] as u32),
        !(nums@.len() == 1 && nums@[0] <= u32::MAX) ==> r == Err::<u32, EnvError>(EnvError::MalformedLine),
{
    if nums.len() != 1 {
        return Err(EnvError::MalformedLine);
    }
    response_from_number(nums[0])
}

/// Whether the judge sends another query line after `answered` answered turns.
pub fn query_follows(answered: usize) -> (b: bool)
    ensures
        b == (answered < NUM_TURN),
{
    answered < NUM_TURN
}

/// ASCII white space: space, tab, line feed, vertical tab, form feed, carriage return.
pub open spec fn is_space(b: u8) -> bool {
    b == 32 || (9 <= b && b <= 13)
}

pub open spec fn is_digit(b: u8) -> bool {
    48 <= b && b <= 57
}

/// Decimal value of a run of digits.
pub open spec fn digits_value(w: Seq<u8>) -> int
    decreases w.len(),
{
    if w.len() == 0 {
        0
    } else {
        digits_value(w.drop_last()) * 10 + (w.last() - 48)
    }
}

/// The words of `s` seen so far, and the word still open at its end.
pub open spec fn split_state(s: Seq<u8>) -> (Seq<Seq<u8>>, Seq<u8>)
    decreases s.len(),
{
    if s.len() == 0 {
        (seq![], seq![])
    } else {
        let (ws, cur) = split_state(s.drop_last());
        if is_space(s.last()) {
            if cur.len() > 0 {
                (ws.push(cur), seq![])
            } else {
                (ws, seq![])
            }
        } else {
            (ws, cur.push(s.last()))
        }
    }
}

/// The maximal runs of non-space bytes of `s`, in order.
pub open spec fn words(s: Seq<u8>) -> Seq<Seq<u8>> {
    let (ws, cur) = split_state(s);
    if cur.len() > 0 {
        ws.push(cur)
    } else {
        ws
    }
}

/// A word that is an unsigned decimal number of 64 bits.
pub open spec fn is_number(w: Seq<u8>) -> bool {
    &&& forall|i: int| 0 <= i < w.len() ==> is_digit(#[trigger] w[i])
    &&& digits_value(w) <= u64::MAX
}

/// The numbers of a line, if each of its words is one.
pub open spec fn spec_numbers(s: Seq<u8>) -> Option<Seq<u64>> {
    let ws = words(s);
    if forall|i: int| 0 <= i < ws.len() ==> is_number(#[trigger] ws[i]) {
        Some(Seq::new(ws.len(), |i: int| digits_value(ws[i]) as u64))
    } else {
        None
    }
}

proof fn lemma_digits_value_nonneg(w: Seq<u8>)
    requires
        forall|i: int| 0 <= i < w.len() ==> is_digit(#[trigger] w[i]),
    ensures
        digits_value(w) >= 0,
    decreases w.len(),
{
    if w.len() > 0 {
        assert forall|i: int| 0 <= i < w.drop_last().len() implies is_digit(#[trigger] w.drop_last()[i]) by {
            assert(w.drop_last()[i] == w[i]);
        }
        lemma_digits_value_nonneg(w.drop_last());
        assert(is_digit(w[w.len() - 1]));
    }
}

/// Splits a line into words and reads each as an unsigned decimal number.
pub fn parse_numbers(line: &[u8]) -> (r: Result<Vec<u64>, EnvError>)
    ensures
        r matches Ok(v) ==> spec_numbers(line@) == Some(v@),
        r is Err ==> spec_numbers(line@) is None && r == Err::<Vec<u64>, EnvError>(EnvError::MalformedLine),
{
    let mut vals: Vec<u64> = Vec::new();
    let mut bad = false;
    let mut cur_len: usize = 0;
    let mut cur_digits = true;
    let mut cur_big = false;
    let mut cur_val: u64 = 0;
    let mut i: usize = 0;
    let ghost mut gws: Seq<Seq<u8>> = seq![];
    let ghost mut gcur: Seq<u8> = seq![];
    assert(line@.take(0) =~= Seq::<u8>::empty());
    while i < line.len()
        invariant
            i <= line@.len(),
            cur_len <= i,
            split_state(line@.take(i as int)) == (gws, gcur),
            gcur.len() == cur_len,
            cur_digits == (forall|j: int| 0 <= j < gcur.len() ==> is_digit(#[trigger] gcur[j])),
            cur_digits ==> (cur_big == (digits_value(gcur) > u64::MAX)),
            cur_digits && !cur_big ==> cur_val == digits_value(gcur),
            !bad ==> vals@.len() == gws.len(),
            !bad ==> forall|j: int|
                0 <= j < gws.len() ==> is_number(#[trigger] gws[j]) && vals@[j] == digits_value(gws[j]),
            bad ==> exists|j: int| 0 <= j < gws.len() && !is_number(#[trigger] gws[j]),
        decreases line@.len() - i,
    {
        let b = line[i];
        let ghost pre = line@.take(i as int);
        let ghost post = line@.take(i as int + 1);
        assert(post.drop_last() =~= pre);
        assert(post.last() == b);
        let ghost ws = gws;
        let ghost cur = gcur;
        let ghost was_bad = bad;
        assert(split_state(post) == if is_space(b) {
            if cur.len() > 0 {
                (ws.push(cur), Seq::<u8>::empty())
            } else {
                (ws, Seq::<u8>::empty())
            }
        } else {
            (ws, cur.push(b))
        });
        if b == 32 || (9 <= b && b <= 13) {
            if cur_len > 0 {
                if cur_digits && !cur_big {
                    proof {
                        lemma_digits_value_nonneg(cur);
                    }
                    vals.push(cur_val);
                    proof {
                        let ws2 = ws.push(cur);
                        if !bad {
                            assert forall|j: int| 0 <= j < ws2.len() implies is_number(#[trigger] ws2[j]) && vals@[j]
                                == digits_value(ws2[j]) by {
                                if j < ws.len() {
                                    assert(ws2[j] == ws[j]);
                                }
                            }
                        } else {
                            let j = choose|j: int| 0 <= j < ws.len() && !is_number(#[trigger] ws[j]);
                            assert(ws.push(cur)[j] == ws[j]);
                        }
                    }
                } else {
                    proof {
                        let ws2 = ws.push(cur);
                        assert(split_state(post) == (ws2, Seq::<u8>::empty()));
                        if !cur_digits {
                            let j = choose|j: int| 0 <= j < cur.len() && !is_digit(#[trigger] cur[j]);
                        }
                        assert(!is_number(ws2[ws.len() as int]));
                    }
                    bad = true;
                }
            } else {
                proof {
                    assert(split_state(post) == (ws, Seq::<u8>::empty()));
                    if was_bad {
                        let j = choose|j: int| 0 <= j < ws.len() && !is_number(#[trigger] ws[j]);
                    }
                }
            }
            cur_len = 0;
            cur_digits = true;
            cur_big = false;
            cur_val = 0;
            proof {
                assert(digits_value(Seq::<u8>::empty()) == 0);
            }
        } else {
            let ghost cur2 = cur.push(b);
            assert(cur2.drop_last() =~= cur);
            assert(cur2.last() == b);
            if cur_digits && 48 <= b && b <= 57 {
                let d = (b - 48) as u64;
                proof {
                    lemma_digits_value_nonneg(cur);
                    assert(digits_value(cur2) == digits_value(cur) * 10 + d);
                }
                if !cur_big {
                    if cur_val > (u64::MAX - d) / 10 {
                        assert(cur_val * 10 + d > u64::MAX) by (nonlinear_arith)
                            requires
                                cur_val > (u64::MAX - d) / 10,
                                d <= 9,
                        ;
                        cur_big = true;
                    } else {
                        assert(cur_val * 10 + d <= u64::MAX) by (nonlinear_arith)
                            requires
                                cur_val <= (u64::MAX - d) / 10,
                                d <= 9,
                        ;
                        cur_val = cur_val * 10 + d;
                    }
                } else {
                    assert(digits_value(cur) * 10 + d > u64::MAX) by (nonlinear_arith)
                        requires
                            digits_value(cur) > u64::MAX,
                            d >= 0,
                    ;
                }
            } else {
                cur_digits = false;
            }
            proof {
                assert(split_state(post) == (ws, cur2));
                assert forall|j: int| 0 <= j < cur.len() implies cur2[j] == cur[j] by {}
                if cur_digits {
                    lemma_digits_value_nonneg(cur);
                    assert forall|j: int| 0 <= j < cur2.len() implies is_digit(#[trigger] cur2[j]) by {
                        if j < cur.len() {
                            assert(cur2[j] == cur[j]);
                        }
                    }
                } else if !is_digit(b) {
                    assert(!is_digit(cur2[cur.len() as int]));
                } else {
                    let j = choose|j: int| 0 <= j < cur.len() && !is_digit(#[trigger] cur[j]);
                    assert(cur2[j] == cur[j]);
                }
                if was_bad {
                    let j = choose|j: int| 0 <= j < ws.len() && !is_number(#[trigger] ws[j]);
                }
            }
            cur_len = cur_len + 1;
        }
        proof {
            gws = split_state(post).0;
            gcur = split_state(post).1;
        }
        i += 1;
    }
    assert(line@.take(i as int) =~= line@);
    let ghost ws = gws;
    let ghost cur = gcur;
    if cur_len > 0 {
        if cur_digits && !cur_big {
            proof {
                lemma_digits_value_nonneg(cur);
            }
            vals.push(cur_val);
        } else {
            bad = true;
            proof {
                assert(!is_number(ws.push(cur)[ws.len() as int]));
            }
        }
    }
    if bad {
        proof {
            let all = words(line@);
            if exists|j: int| 0 <= j < ws.len() && !is_number(#[trigger] ws[j]) {
                let j = choose|j: int| 0 <= j < ws.len() && !is_number(#[trigger] ws[j]);
                assert(all[j] == ws[j]);
            } else {
                assert(all[ws.len() as int] == cur);
            }
        }
        return Err(EnvError::MalformedLine);
    }
    proof {
        let all = words(line@);
        assert forall|j: int| 0 <= j < all.len() implies is_number(#[trigger] all[j]) && vals@[j] == digits_value(all[j]) by {
            if j < ws.len() {
                assert(all[j] == ws[j]);
            }
        }
        assert(vals@ =~= Seq::new(all.len(), |k: int| digits_value(all[k]) as u64));
    }
    Ok(vals)
}

} // verus!
