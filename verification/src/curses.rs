use vstd::prelude::*;

verus! {

/// The byte values the cursor-position report is built from.
pub const BYTE_LBRACKET: u8 = 0x5b;

pub const BYTE_SEMI: u8 = 0x3b;

pub const BYTE_ZERO: u8 = 0x30;

pub const BYTE_NINE: u8 = 0x39;

/// Offset of the last occurrence of `b` in `s`.
pub open spec fn rfind_byte(s: Seq<u8>, b: u8) -> Option<int>
    decreases s.len(),
{
    if s.len() == 0 {
        None
    } else if s.last() == b {
        Some(s.len() - 1)
    } else {
        rfind_byte(s.drop_last(), b)
    }
}

/// Offset of the first occurrence of `b` in `s`.
pub open spec fn find_byte(s: Seq<u8>, b: u8) -> Option<int>
    decreases s.len(),
{
    if s.len() == 0 {
        None
    } else if s[0] == b {
        Some(0)
    } else {
        match find_byte(s.drop_first(), b) {
            None => None,
            Some(i) => Some(i + 1),
        }
    }
}

pub open spec fn is_digit(b: u8) -> bool {
    BYTE_ZERO <= b <= BYTE_NINE
}

pub open spec fn all_digits(ds: Seq<u8>) -> bool {
    forall|k: int| 0 <= k < ds.len() ==> is_digit(#[trigger] ds[k])
}

/// Decimal value of a digit string.
pub open spec fn dec_val(ds: Seq<u8>) -> int
    decreases ds.len(),
{
    if ds.len() == 0 {
        0
    } else {
        dec_val(ds.drop_last()) * 10 + (ds.last() - BYTE_ZERO)
    }
}

/// What a well-formed cursor-position report yields: the bytes between the
/// last `[` and the final byte split at the first `;` into a row field and
/// a column field, both non-empty decimal numbers in `u16` range, given
/// back as (column, row). Anything else is malformed.
pub open spec fn parse_report_spec(bytes: Seq<u8>) -> Option<(int, int)> {
    match rfind_byte(bytes, BYTE_LBRACKET) {
        None => None,
        Some(beg) => if beg + 2 > bytes.len() {
            None
        } else {
            let mid = bytes.subrange(beg + 1, bytes.len() - 1);
            match find_byte(mid, BYTE_SEMI) {
                None => None,
                Some(p) => {
                    let ys = mid.take(p);
                    let rest = mid.skip(p + 1);
                    let xs = match find_byte(rest, BYTE_SEMI) {
                        None => rest,
                        Some(p2) => rest.take(p2),
                    };
                    if ys.len() > 0 && xs.len() > 0 && all_digits(ys) && all_digits(xs) && dec_val(
                        ys,
                    ) <= u16::MAX && dec_val(xs) <= u16::MAX {
                        Some((dec_val(xs), dec_val(ys)))
                    } else {
                        None
                    }
                },
            }
        },
    }
}

/// Where the last occurrence stands: a hit is a real occurrence with none
/// after it; a miss means the byte does not occur.
proof fn lemma_rfind_byte(s: Seq<u8>, b: u8)
    ensures
        match rfind_byte(s, b) {
            Some(d) => 0 <= d < s.len() && s[d] == b && forall|k: int|
                d < k < s.len() ==> s[k] != b,
            None => forall|k: int| 0 <= k < s.len() ==> s[k] != b,
        },
    decreases s.len(),
{
    if s.len() == 0 {
    } else if s.last() == b {
    } else {
        lemma_rfind_byte(s.drop_last(), b);
        assert(forall|k: int| 0 <= k < s.len() - 1 ==> s.drop_last()[k] == s[k]);
    }
}

/// Where the first occurrence stands: a hit is a real occurrence with none
/// before it; a miss means the byte does not occur.
proof fn lemma_find_byte(s: Seq<u8>, b: u8)
    ensures
        match find_byte(s, b) {
            Some(d) => 0 <= d < s.len() && s[d] == b && forall|k: int| 0 <= k < d ==> s[k] != b,
            None => forall|k: int| 0 <= k < s.len() ==> s[k] != b,
        },
    decreases s.len(),
{
    if s.len() == 0 {
    } else if s[0] == b {
    } else {
        let s1 = s.drop_first();
        lemma_find_byte(s1, b);
        assert(forall|k: int| 0 <= k < s1.len() ==> s1[k] == s[k + 1]);
        match find_byte(s1, b) {
            Some(i) => {
                assert(find_byte(s, b) == Some(i + 1));
                assert(s[i + 1] == s1[i]);
                assert forall|k: int| 0 <= k < i + 1 implies s[k] != b by {
                    if k > 0 {
                        assert(s1[k - 1] != b);
                    }
                }
            },
            None => {
                assert forall|k: int| 0 <= k < s.len() implies s[k] != b by {
                    if k > 0 {
                        assert(s1[k - 1] != b);
                    }
                }
            },
        }
    }
}

/// A digit string's value only grows as digits are appended.
proof fn lemma_dec_val_bounds(ds: Seq<u8>)
    requires
        all_digits(ds),
    ensures
        dec_val(ds) >= 0,
        forall|j: int| 0 <= j <= ds.len() ==> dec_val(#[trigger] ds.take(j)) <= dec_val(ds),
    decreases ds.len(),
{
    if ds.len() == 0 {
        assert forall|j: int| 0 <= j <= ds.len() implies dec_val(#[trigger] ds.take(j)) <= dec_val(
            ds,
        ) by {
            assert(ds.take(j) =~= ds);
        }
    } else {
        assert(all_digits(ds.drop_last())) by {
            assert(forall|k: int| 0 <= k < ds.len() - 1 ==> ds.drop_last()[k] == ds[k]);
        }
        lemma_dec_val_bounds(ds.drop_last());
        assert(dec_val(ds) >= 0);
        assert forall|j: int| 0 <= j <= ds.len() implies dec_val(#[trigger] ds.take(j)) <= dec_val(
            ds,
        ) by {
            if j == ds.len() {
                assert(ds.take(j) =~= ds);
            } else {
                assert(ds.take(j) =~= ds.drop_last().take(j));
                assert(dec_val(ds.drop_last()) <= dec_val(ds));
            }
        }
    }
}

/// Parse one decimal field of the report: `bytes[from..to]` as a number in
/// `u16` range, or nothing if it is empty, holds a non-digit, or overflows.
fn parse_field(bytes: &Vec<u8>, from: usize, to: usize) -> (r: Option<u16>)
    requires
        from <= to <= bytes@.len(),
    ensures
        ({
            let ds = bytes@.subrange(from as int, to as int);
            match r {
                Some(v) => ds.len() > 0 && all_digits(ds) && dec_val(ds) == v as int && dec_val(ds)
                    <= u16::MAX,
                None => !(ds.len() > 0 && all_digits(ds) && dec_val(ds) <= u16::MAX),
            }
        }),
{
    let ghost ds = bytes@.subrange(from as int, to as int);
    if from == to {
        return None;
    }
    let mut val: u32 = 0;
    let mut j: usize = from;
    while j < to
        invariant
            from <= j <= to <= bytes@.len(),
            ds == bytes@.subrange(from as int, to as int),
            all_digits(ds.take(j - from)),
            val as int == dec_val(ds.take(j - from)),
            val <= u16::MAX as u32,
        decreases to - j,
    {
        let b = bytes[j];
        proof {
            assert(ds[j - from] == bytes@[j as int]);
        }
        if b < BYTE_ZERO || b > BYTE_NINE {
            proof {
                assert(!is_digit(ds[j - from]));
            }
            return None;
        }
        let d = (b - BYTE_ZERO) as u32;
        let next = val * 10 + d;
        proof {
            assert(ds.take(j - from + 1) =~= ds.take(j - from).push(ds[j - from]));
            assert(dec_val(ds.take(j - from + 1)) == dec_val(ds.take(j - from)) * 10 + (ds[j
                - from] - BYTE_ZERO)) by {
                assert(ds.take(j - from + 1).drop_last() =~= ds.take(j - from));
                assert(ds.take(j - from + 1).last() == ds[j - from]);
            }
        }
        if next > u16::MAX as u32 {
            proof {
                if all_digits(ds) {
                    lemma_dec_val_bounds(ds);
                    assert(dec_val(ds.take(j - from + 1)) <= dec_val(ds));
                }
            }
            return None;
        }
        val = next;
        j = j + 1;
    }
    proof {
        assert(ds.take(to - from) =~= ds);
    }
    Some(val as u16)
}

/// The compute half of reading the cursor position: decode the raw bytes
/// of the terminal's cursor-position report into (column, row), exactly as
/// `parse_report_spec` states; a malformed report yields nothing.
pub fn parse_cursor_report(bytes: &Vec<u8>) -> (r: Option<(u16, u16)>)
    ensures
        match r {
            Some(p) => parse_report_spec(bytes@) == Some((p.0 as int, p.1 as int)),
            None => parse_report_spec(bytes@) is None,
        },
{
    let n = bytes.len();
    // last '[' in the raw bytes
    let mut i: usize = n;
    while i > 0 && bytes[i - 1] != BYTE_LBRACKET
        invariant
            0 <= i <= n,
            n == bytes@.len(),
            forall|k: int| i <= k < n ==> bytes@[k] != BYTE_LBRACKET,
        decreases i,
    {
        i = i - 1;
    }
    proof {
        lemma_rfind_byte(bytes@, BYTE_LBRACKET);
    }
    if i == 0 {
        proof {
            if rfind_byte(bytes@, BYTE_LBRACKET) is Some {
                let d = rfind_byte(bytes@, BYTE_LBRACKET).unwrap();
                assert(bytes@[d] != BYTE_LBRACKET);
            }
        }
        return None;
    }
    let beg = i - 1;
    proof {
        assert(bytes@[beg as int] == BYTE_LBRACKET);
        match rfind_byte(bytes@, BYTE_LBRACKET) {
            Some(d) => {
                if d < beg {
                    assert(bytes@[beg as int] != BYTE_LBRACKET);
                }
                if d > beg {
                    assert(bytes@[d] != BYTE_LBRACKET);
                }
                assert(d == beg);
            },
            None => {
                assert(bytes@[beg as int] != BYTE_LBRACKET);
            },
        }
    }
    if n - beg < 2 {
        return None;
    }
    let ghost mid = bytes@.subrange(beg + 1, n - 1);
    // first ';' after the '['
    let mut j: usize = beg + 1;
    while j < n - 1 && bytes[j] != BYTE_SEMI
        invariant
            beg + 1 <= j <= n - 1,
            n == bytes@.len(),
            beg + 2 <= n,
            forall|k: int| beg + 1 <= k < j ==> bytes@[k] != BYTE_SEMI,
        decreases n - j,
    {
        j = j + 1;
    }
    proof {
        lemma_find_byte(mid, BYTE_SEMI);
        assert(forall|k: int| 0 <= k < mid.len() ==> mid[k] == bytes@[beg + 1 + k]);
    }
    if j == n - 1 {
        proof {
            if find_byte(mid, BYTE_SEMI) is Some {
                let p = find_byte(mid, BYTE_SEMI).unwrap();
                assert(bytes@[beg + 1 + p] != BYTE_SEMI);
            }
        }
        return None;
    }
    proof {
        assert(bytes@[j as int] == BYTE_SEMI);
        match find_byte(mid, BYTE_SEMI) {
            Some(p) => {
                if p < j - beg - 1 {
                    assert(bytes@[beg + 1 + p] != BYTE_SEMI);
                }
                if p > j - beg - 1 {
                    assert(mid[j - beg - 1] != BYTE_SEMI);
                }
                assert(p == j - beg - 1);
            },
            None => {
                assert(mid[j - beg - 1] != BYTE_SEMI);
            },
        }
    }
    let semi = j;
    // second ';' bounds the column field, else the final byte does
    let mut j2: usize = semi + 1;
    while j2 < n - 1 && bytes[j2] != BYTE_SEMI
        invariant
            semi + 1 <= j2 <= n - 1,
            n == bytes@.len(),
            semi + 1 <= n - 1,
            forall|k: int| semi + 1 <= k < j2 ==> bytes@[k] != BYTE_SEMI,
        decreases n - j2,
    {
        j2 = j2 + 1;
    }
    let ghost p = semi - beg - 1;
    let ghost rest = mid.skip(p + 1);
    proof {
        lemma_find_byte(rest, BYTE_SEMI);
        assert(forall|k: int| 0 <= k < rest.len() ==> rest[k] == bytes@[semi + 1 + k]);
        assert(bytes@[j2 as int] == BYTE_SEMI || j2 == n - 1);
        match find_byte(rest, BYTE_SEMI) {
            Some(p2) => {
                if p2 < j2 - semi - 1 {
                    assert(bytes@[semi + 1 + p2] != BYTE_SEMI);
                }
                if p2 > j2 - semi - 1 {
                    assert(j2 < n - 1);
                    assert(rest[j2 - semi - 1] != BYTE_SEMI);
                }
                assert(p2 == j2 - semi - 1);
            },
            None => {
                if j2 < n - 1 {
                    assert(rest[j2 - semi - 1] != BYTE_SEMI);
                }
            },
        }
    }
    // row field between '[' and the first ';', column field after it
    let y = parse_field(bytes, beg + 1, semi);
    let x = parse_field(bytes, semi + 1, j2);
    proof {
        let ys = mid.take(p);
        let xs = match find_byte(rest, BYTE_SEMI) {
            None => rest,
            Some(p2) => rest.take(p2),
        };
        assert(ys =~= bytes@.subrange(beg + 1, semi as int));
        assert(xs =~= bytes@.subrange(semi + 1, j2 as int));
    }
    match (x, y) {
        (Some(xv), Some(yv)) => Some((xv, yv)),
        _ => None,
    }
}

} // verus!
