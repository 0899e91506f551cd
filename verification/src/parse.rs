//! Parsing of the textual point form "X:Y": exactly one colon between two
//! signed base-10 integers, each within the i32 range.

use vstd::prelude::*;
use vstd::slice::slice_subrange;
use crate::point::Point;

verus! {

/// A base-10 digit byte.
pub open spec fn is_digit(b: u8) -> bool {
    48 <= b <= 57
}

/// Every byte a base-10 digit.
pub open spec fn all_digits(s: Seq<u8>) -> bool {
    forall|i: int| 0 <= i < s.len() ==> is_digit(#[trigger] s[i])
}

/// The number a string of digit bytes denotes, most significant first.
pub open spec fn digits_value(s: Seq<u8>) -> int
    decreases s.len(),
{
    if s.len() == 0 {
        0
    } else {
        digits_value(s.drop_last()) * 10 + (s.last() - 48)
    }
}

/// The digits of a piece of signed integer text: everything after an
/// optional leading sign.
pub open spec fn digits_of(s: Seq<u8>) -> Seq<u8> {
    if s.len() > 0 && (s[0] == 43 || s[0] == 45) {
        s.subrange(1, s.len() as int)
    } else {
        s
    }
}

/// Text of a signed base-10 integer: an optional sign, then one digit or
/// more, nothing else.
pub open spec fn is_int_text(s: Seq<u8>) -> bool {
    digits_of(s).len() > 0 && all_digits(digits_of(s))
}

/// The integer a piece of signed integer text denotes.
pub open spec fn int_text_value(s: Seq<u8>) -> int {
    if s.len() > 0 && s[0] == 45 {
        -digits_value(digits_of(s))
    } else {
        digits_value(digits_of(s))
    }
}

/// Signed integer text whose value fits an i32.
pub open spec fn is_i32_text(s: Seq<u8>) -> bool {
    is_int_text(s) && i32::MIN <= int_text_value(s) <= i32::MAX
}

/// The colon at position k splits the text into two coordinates: it is the
/// only colon, and both sides are i32 text.
pub open spec fn splits_point_text(s: Seq<u8>, k: int) -> bool {
    &&& 0 <= k < s.len()
    &&& s[k] == 58
    &&& (forall|j: int| 0 <= j < s.len() && j != k ==> #[trigger] s[j] != 58)
    &&& is_i32_text(s.subrange(0, k))
    &&& is_i32_text(s.subrange(k + 1, s.len() as int))
}

/// Text of a point: two i32 coordinates around a single colon.
pub open spec fn is_point_text(s: Seq<u8>) -> bool {
    exists|k: int| splits_point_text(s, k)
}

/// A digit string's value, cut off just above the i32 magnitude range.
spec fn capped(v: int) -> int {
    if v > 2147483649 {
        2147483649
    } else {
        v
    }
}

/// Parses signed base-10 integer text into an i32; None where the text is
/// not such an integer or does not fit.
pub fn parse_i32(s: &[u8]) -> (r: Option<i32>)
    ensures
        r is Some <==> is_i32_text(s@),
        r matches Some(v) ==> v as int == int_text_value(s@),
{
    let n = s.len();
    if n == 0 {
        return None;
    }
    let first = s[0];
    let neg = first == 45;
    let has_sign = neg || first == 43;
    let offset: usize = if has_sign {
        1
    } else {
        0
    };
    if n == offset {
        assert(digits_of(s@).len() == 0);
        return None;
    }
    let mut i: usize = offset;
    let mut acc: u64 = 0;
    proof {
        assert(s@.subrange(offset as int, offset as int) =~= Seq::<u8>::empty());
    }
    while i < n
        invariant
            offset <= i <= n,
            offset < n,
            offset == 0 || offset == 1,
            n == s@.len(),
            offset == 1 ==> (s@[0] == 43 || s@[0] == 45),
            offset == 0 ==> !(s@[0] == 43 || s@[0] == 45),
            forall|j: int| offset <= j < i ==> is_digit(#[trigger] s@[j]),
            acc == capped(digits_value(s@.subrange(offset as int, i as int))),
            acc <= 2147483649,
        decreases n - i,
    {
        let b = s[i];
        if b < 48 || b > 57 {
            proof {
                let ds = digits_of(s@);
                if offset == 1 {
                    assert(ds == s@.subrange(1, n as int));
                    assert(ds[i - 1] == s@[i as int]);
                } else {
                    assert(ds == s@);
                    assert(ds[i as int] == s@[i as int]);
                }
                assert(!is_digit(ds[i - offset]));
            }
            return None;
        }
        let ghost pre = s@.subrange(offset as int, i as int);
        acc = acc * 10 + ((b - 48) as u64);
        if acc > 2147483649 {
            acc = 2147483649;
        }
        proof {
            let post = s@.subrange(offset as int, (i + 1) as int);
            assert(post.drop_last() =~= pre);
            assert(post.last() == s@[i as int]);
            assert(digits_value(post) == digits_value(pre) * 10 + (b - 48));
        }
        i = i + 1;
    }
    proof {
        assert(s@.subrange(offset as int, n as int) =~= digits_of(s@));
        assert(is_int_text(s@));
    }
    let ghost dv = digits_value(digits_of(s@));
    if neg {
        if acc > 2147483648 {
            assert(int_text_value(s@) == -dv && dv > 2147483648);
            None
        } else {
            assert(acc == dv);
            let v = (-(acc as i64)) as i32;
            assert(v as int == int_text_value(s@));
            Some(v)
        }
    } else {
        if acc > 2147483647 {
            assert(int_text_value(s@) == dv && dv > 2147483647);
            None
        } else {
            assert(acc == dv);
            let v = acc as u32 as i32;
            assert(v as int == int_text_value(s@));
            Some(v)
        }
    }
}

impl Point {
    /// Parses the textual form "X:Y" into a point: None where the text is
    /// not exactly two i32 coordinates around a single colon.
    pub fn from_text(s: &[u8]) -> (r: Option<Point>)
        ensures
            r is Some <==> is_point_text(s@),
            r matches Some(p) ==> forall|k: int|
                splits_point_text(s@, k) ==> p.x as int == int_text_value(s@.subrange(0, k))
                    && p.y as int == int_text_value(s@.subrange(k + 1, s@.len() as int)),
    {
        let n = s.len();
        let mut i: usize = 0;
        let mut found = false;
        let mut cpos: usize = 0;
        while i < n
            invariant
                i <= n,
                n == s@.len(),
                found ==> cpos < i && s@[cpos as int] == 58 && (forall|j: int|
                    0 <= j < i && j != cpos ==> #[trigger] s@[j] != 58),
                !found ==> forall|j: int| 0 <= j < i ==> #[trigger] s@[j] != 58,
            decreases n - i,
        {
            if s[i] == 58 {
                if found {
                    proof {
                        assert forall|k: int| !splits_point_text(s@, k) by {
                            if splits_point_text(s@, k) {
                                if k != cpos {
                                    assert(s@[cpos as int] == 58);
                                } else {
                                    assert(s@[i as int] == 58);
                                }
                            }
                        }
                    }
                    return None;
                }
                found = true;
                cpos = i;
            }
            i = i + 1;
        }
        if !found {
            proof {
                assert forall|k: int| !splits_point_text(s@, k) by {
                    if 0 <= k < s@.len() {
                        assert(s@[k] != 58);
                    }
                }
            }
            return None;
        }
        let x = parse_i32(slice_subrange(s, 0, cpos));
        let y = parse_i32(slice_subrange(s, cpos + 1, n));
        match (x, y) {
            (Some(a), Some(b)) => {
                proof {
                    assert(splits_point_text(s@, cpos as int));
                    assert forall|k: int| splits_point_text(s@, k) implies k == cpos as int by {
                        if k != cpos {
                            assert(s@[cpos as int] == 58);
                        }
                    }
                }
                Some(Point::new(a, b))
            },
            _ => {
                proof {
                    assert forall|k: int| !splits_point_text(s@, k) by {
                        if splits_point_text(s@, k) && k != cpos {
                            assert(s@[cpos as int] == 58);
                        }
                    }
                }
                None
            },
        }
    }
}

} // verus!
