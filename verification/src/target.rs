//! Admission of targets: a target is accepted when its address text is a
//! well-formed dotted-quad address (four decimal octets of value at most
//! 255, separated by single dots, with no leading zeros) or a well-formed
//! colon-grouped address (hex groups of one to four digits, at most one
//! `::` compression standing for at least one zero group, optionally ending
//! in an embedded dotted quad that stands for two groups).

use vstd::prelude::*;

verus! {

/// An ASCII decimal digit.
pub open spec fn is_digit(b: u8) -> bool {
    48 <= b <= 57
}

/// An ASCII hexadecimal digit, either case.
pub open spec fn is_hex_digit(b: u8) -> bool {
    (48 <= b <= 57) || (97 <= b <= 102) || (65 <= b <= 70)
}

/// The value of a run of decimal digits.
pub open spec fn dec_val(s: Seq<u8>) -> int
    decreases s.len(),
{
    if s.len() == 0 {
        0
    } else {
        dec_val(s.drop_last()) * 10 + (s.last() - 48)
    }
}

/// One octet's text: one to three digits, no leading zero, value at most
/// 255.
pub open spec fn is_octet_text(s: Seq<u8>) -> bool {
    &&& 1 <= s.len() <= 3
    &&& (forall|i: int| 0 <= i < s.len() ==> is_digit(#[trigger] s[i]))
    &&& (s.len() > 1 ==> s[0] != 48)
    &&& dec_val(s) <= 255
}

/// The positions of a separator byte, in increasing order.
pub open spec fn sep_positions(s: Seq<u8>, sep: u8) -> Seq<int>
    decreases s.len(),
{
    if s.len() == 0 {
        Seq::empty()
    } else if s.last() == sep {
        sep_positions(s.drop_last(), sep).push(s.len() - 1)
    } else {
        sep_positions(s.drop_last(), sep)
    }
}

/// Separator positions lie within the text and increase strictly.
pub proof fn lemma_sep_positions_bounds(s: Seq<u8>, sep: u8)
    ensures
        forall|k: int| 0 <= k < sep_positions(s, sep).len()
            ==> 0 <= #[trigger] sep_positions(s, sep)[k] < s.len(),
        forall|k: int, l: int| 0 <= k < l < sep_positions(s, sep).len()
            ==> sep_positions(s, sep)[k] < sep_positions(s, sep)[l],
    decreases s.len(),
{
    if s.len() > 0 {
        lemma_sep_positions_bounds(s.drop_last(), sep);
        let prior = sep_positions(s.drop_last(), sep);
        assert(s.drop_last().len() == s.len() - 1);
        assert forall|k: int| 0 <= k < sep_positions(s, sep).len()
            implies 0 <= #[trigger] sep_positions(s, sep)[k] < s.len() by {
            if s.last() == sep && k == sep_positions(s, sep).len() - 1 {
                assert(sep_positions(s, sep)[k] == s.len() - 1);
            } else {
                assert(sep_positions(s, sep)[k] == prior[k]);
            }
        }
        assert forall|k: int, l: int| 0 <= k < l < sep_positions(s, sep).len()
            implies sep_positions(s, sep)[k] < sep_positions(s, sep)[l] by {
            if s.last() == sep && l == sep_positions(s, sep).len() - 1 {
                assert(sep_positions(s, sep)[k] == prior[k]);
                assert(prior[k] < s.len() - 1);
            } else {
                assert(sep_positions(s, sep)[k] == prior[k]);
                assert(sep_positions(s, sep)[l] == prior[l]);
            }
        }
    }
}

/// The positions of the dot bytes.
pub open spec fn dot_positions(s: Seq<u8>) -> Seq<int> {
    sep_positions(s, 46)
}

/// The positions of the colon bytes.
pub open spec fn colon_positions(s: Seq<u8>) -> Seq<int> {
    sep_positions(s, 58)
}

/// The piece of text between `from` and `to` is a well-formed octet.
pub open spec fn seg_ok(s: Seq<u8>, from: int, to: int) -> bool {
    from <= to && is_octet_text(s.subrange(from, to))
}

/// A well-formed dotted-quad address: exactly three dots, and a well-formed
/// octet before, between and after them.
pub open spec fn valid_ipv4(s: Seq<u8>) -> bool {
    let dots = dot_positions(s);
    &&& dots.len() == 3
    &&& seg_ok(s, 0, dots[0])
    &&& seg_ok(s, dots[0] + 1, dots[1])
    &&& seg_ok(s, dots[1] + 1, dots[2])
    &&& seg_ok(s, dots[2] + 1, s.len() as int)
}

/// How many colon-separated segments the text has.
pub open spec fn seg_count(s: Seq<u8>) -> int {
    colon_positions(s).len() as int + 1
}

/// Where colon-separated segment `i` starts.
pub open spec fn seg_start(s: Seq<u8>, i: int) -> int {
    if i == 0 {
        0
    } else {
        colon_positions(s)[i - 1] + 1
    }
}

/// Where colon-separated segment `i` ends.
pub open spec fn seg_end(s: Seq<u8>, i: int) -> int {
    if i == colon_positions(s).len() {
        s.len() as int
    } else {
        colon_positions(s)[i]
    }
}

/// Segment `i` holds no byte (two adjacent colons, or a colon at an end).
pub open spec fn seg_empty(s: Seq<u8>, i: int) -> bool {
    seg_start(s, i) == seg_end(s, i)
}

/// The bytes between `from` and `to` form one hex group: one to four hex
/// digits.
pub open spec fn hex_group(s: Seq<u8>, from: int, to: int) -> bool {
    &&& from <= to
    &&& 1 <= to - from <= 4
    &&& (forall|j: int| from <= j < to ==> is_hex_digit(#[trigger] s[j]))
}

/// Segment `i` is one hex group.
pub open spec fn seg_hex(s: Seq<u8>, i: int) -> bool {
    hex_group(s, seg_start(s, i), seg_end(s, i))
}

/// Segment `i` is an embedded dotted-quad address (it stands for two
/// groups and may only end the text).
pub open spec fn seg_v4(s: Seq<u8>, i: int) -> bool {
    &&& 0 <= seg_start(s, i) <= seg_end(s, i) <= s.len()
    &&& valid_ipv4(s.subrange(seg_start(s, i), seg_end(s, i)))
}

/// All eight groups written out: eight hex groups, or six and a final
/// dotted quad standing for two.
pub open spec fn ipv6_full(s: Seq<u8>) -> bool {
    let n = seg_count(s);
    &&& (forall|q: int| 0 <= q < n - 1 ==> seg_hex(s, q))
    &&& ((n == 8 && seg_hex(s, 7)) || (n == 7 && seg_v4(s, 6)))
}

/// One `::` strictly inside, standing for at least one zero group: a single
/// empty segment between written groups; the last segment may be a dotted
/// quad.
pub open spec fn ipv6_inner(s: Seq<u8>) -> bool {
    let n = seg_count(s);
    exists|p: int|
        1 <= p <= n - 2 && #[trigger] seg_empty(s, p)
            && (forall|q: int| 0 <= q < n - 1 && q != p ==> seg_hex(s, q))
            && ((seg_hex(s, n - 1) && n - 1 <= 7) || (seg_v4(s, n - 1) && n <= 7))
}

/// A leading `::`: the first two segments empty, then written groups, the
/// last of which may be a dotted quad.
pub open spec fn ipv6_leading(s: Seq<u8>) -> bool {
    let n = seg_count(s);
    &&& n >= 3
    &&& seg_empty(s, 0)
    &&& seg_empty(s, 1)
    &&& (forall|q: int| 2 <= q < n - 1 ==> seg_hex(s, q))
    &&& ((seg_hex(s, n - 1) && n - 2 <= 7) || (seg_v4(s, n - 1) && n - 1 <= 7))
}

/// A trailing `::`: written groups, then the last two segments empty.
pub open spec fn ipv6_trailing(s: Seq<u8>) -> bool {
    let n = seg_count(s);
    &&& n >= 3
    &&& seg_empty(s, n - 2)
    &&& seg_empty(s, n - 1)
    &&& (forall|q: int| 0 <= q < n - 2 ==> seg_hex(s, q))
    &&& n - 2 <= 7
}

/// `::` alone: the all-zero address.
pub open spec fn ipv6_alone(s: Seq<u8>) -> bool {
    &&& seg_count(s) == 3
    &&& seg_empty(s, 0)
    &&& seg_empty(s, 1)
    &&& seg_empty(s, 2)
}

/// A well-formed colon-grouped address, in any of its five written shapes.
pub open spec fn valid_ipv6(s: Seq<u8>) -> bool {
    ||| ipv6_full(s)
    ||| ipv6_inner(s)
    ||| ipv6_leading(s)
    ||| ipv6_trailing(s)
    ||| ipv6_alone(s)
}

/// A target the orchestrator may admit: either address form.
pub open spec fn valid_target(s: Seq<u8>) -> bool {
    valid_ipv4(s) || valid_ipv6(s)
}

/// Digit runs of at most three digits stay below 1000.
proof fn lemma_dec_val_small(s: Seq<u8>)
    requires
        forall|i: int| 0 <= i < s.len() ==> is_digit(#[trigger] s[i]),
        s.len() <= 3,
    ensures
        0 <= dec_val(s),
        s.len() <= 1 ==> dec_val(s) <= 9,
        s.len() <= 2 ==> dec_val(s) <= 99,
        s.len() <= 3 ==> dec_val(s) <= 999,
    decreases s.len(),
{
    if s.len() > 0 {
        assert(forall|i: int| 0 <= i < s.drop_last().len()
            ==> is_digit(#[trigger] s.drop_last()[i]));
        lemma_dec_val_small(s.drop_last());
        assert(is_digit(s[s.len() - 1]));
    }
}

/// Collect the positions of a separator within `[from, to)`, relative to
/// `from`.
fn sep_scan(t: &Vec<u8>, from: usize, to: usize, sep: u8) -> (ps: Vec<usize>)
    requires
        from <= to,
        to <= t@.len(),
    ensures
        ps@.map_values(|d: usize| d as int)
            == sep_positions(t@.subrange(from as int, to as int), sep),
{
    let ghost sub = t@.subrange(from as int, to as int);
    let mut ps: Vec<usize> = Vec::new();
    let mut i: usize = 0;
    while i < to - from
        invariant
            i <= to - from,
            from <= to <= t@.len(),
            sub == t@.subrange(from as int, to as int),
            ps@.map_values(|d: usize| d as int) == sep_positions(sub.subrange(0, i as int), sep),
        decreases to - from - i,
    {
        let ghost prefix = sub.subrange(0, i as int);
        let ghost next = sub.subrange(0, (i + 1) as int);
        proof {
            assert(next.drop_last() =~= prefix);
            assert(next.last() == sub[i as int]);
            assert(sub[i as int] == t@[(from + i) as int]);
        }
        if t[from + i] == sep {
            ps.push(i);
            proof {
                assert(ps@.map_values(|d: usize| d as int)
                    =~= sep_positions(prefix, sep).push(i as int));
            }
        }
        i = i + 1;
    }
    proof {
        assert(sub.subrange(0, sub.len() as int) =~= sub);
    }
    ps
}

/// Check one would-be octet between `from` and `to`.
fn check_octet(t: &Vec<u8>, from: usize, to: usize) -> (ok: bool)
    requires
        from <= t@.len(),
        to <= t@.len(),
    ensures
        ok == seg_ok(t@, from as int, to as int),
{
    if from >= to {
        return false;
    }
    let ghost seg = t@.subrange(from as int, to as int);
    let n = to - from;
    if n > 3 {
        return false;
    }
    let mut i = from;
    while i < to
        invariant
            from <= i <= to <= t@.len(),
            seg == t@.subrange(from as int, to as int),
            forall|j: int| from <= j < i ==> is_digit(#[trigger] t@[j]),
        decreases to - i,
    {
        if t[i] < 48 || t[i] > 57 {
            assert(0 <= i - from < seg.len());
            assert(seg[i - from] == t@[i as int]);
            assert(!is_digit(seg[i - from]));
            return false;
        }
        i = i + 1;
    }
    assert(forall|j: int| 0 <= j < seg.len() ==> is_digit(#[trigger] seg[j]));
    if n > 1 && t[from] == 48 {
        assert(seg[0] == 48);
        return false;
    }
    let mut val: u32 = 0;
    let mut i = from;
    while i < to
        invariant
            from <= i <= to <= t@.len(),
            i - from <= 3,
            to - from <= 3,
            forall|j: int| 0 <= j < seg.len() ==> is_digit(#[trigger] seg[j]),
            seg == t@.subrange(from as int, to as int),
            val == dec_val(t@.subrange(from as int, i as int)),
            0 <= val <= 999,
        decreases to - i,
    {
        proof {
            assert(t@.subrange(from as int, (i + 1) as int).drop_last()
                =~= t@.subrange(from as int, i as int));
            assert(is_digit(t@[i as int])) by {
                assert(seg[i - from] == t@[i as int]);
            }
            lemma_dec_val_small(t@.subrange(from as int, (i + 1) as int));
        }
        val = val * 10 + ((t[i] - 48) as u32);
        i = i + 1;
    }
    assert(seg =~= t@.subrange(from as int, to as int));
    val <= 255
}

/// Check a would-be dotted-quad address between `from` and `to`.
fn check_v4_range(t: &Vec<u8>, from: usize, to: usize) -> (ok: bool)
    requires
        from <= to,
        to <= t@.len(),
    ensures
        ok == valid_ipv4(t@.subrange(from as int, to as int)),
{
    let ghost sub = t@.subrange(from as int, to as int);
    let dots = sep_scan(t, from, to, 46);
    let ghost dpos = dot_positions(sub);
    assert(dots@.map_values(|d: usize| d as int) == dpos);
    if dots.len() != 3 {
        return false;
    }
    proof {
        lemma_sep_positions_bounds(sub, 46);
        assert(dots@[0] as int == dpos[0]);
        assert(dots@[1] as int == dpos[1]);
        assert(dots@[2] as int == dpos[2]);
    }
    let d0 = dots[0];
    let d1 = dots[1];
    let d2 = dots[2];
    let ok0 = check_octet(t, from, from + d0);
    let ok1 = check_octet(t, from + d0 + 1, from + d1);
    let ok2 = check_octet(t, from + d1 + 1, from + d2);
    let ok3 = check_octet(t, from + d2 + 1, to);
    proof {
        assert(sub.subrange(0, dpos[0]) =~= t@.subrange(from as int, (from + d0) as int));
        if dpos[0] + 1 <= dpos[1] {
            assert(sub.subrange(dpos[0] + 1, dpos[1])
                =~= t@.subrange((from + d0 + 1) as int, (from + d1) as int));
        }
        if dpos[1] + 1 <= dpos[2] {
            assert(sub.subrange(dpos[1] + 1, dpos[2])
                =~= t@.subrange((from + d1 + 1) as int, (from + d2) as int));
        }
        assert(sub.subrange(dpos[2] + 1, sub.len() as int)
            =~= t@.subrange((from + d2 + 1) as int, to as int));
    }
    ok0 && ok1 && ok2 && ok3
}

/// Start and end of colon-separated segment `i`, as byte offsets.
fn seg_bounds(t: &Vec<u8>, cols: &Vec<usize>, i: usize) -> (r: (usize, usize))
    requires
        cols@.map_values(|d: usize| d as int) == colon_positions(t@),
        i <= cols@.len(),
    ensures
        r.0 as int == seg_start(t@, i as int),
        r.1 as int == seg_end(t@, i as int),
        r.0 <= r.1 <= t@.len(),
{
    let tlen = t.len();
    proof {
        lemma_sep_positions_bounds(t@, 58);
        if i > 0 {
            assert(cols@[i as int - 1] as int == colon_positions(t@)[i as int - 1]);
            assert(cols@[i as int - 1] < tlen);
        }
        if i < cols@.len() {
            assert(cols@[i as int] as int == colon_positions(t@)[i as int]);
        }
    }
    let start = if i == 0 {
        0
    } else {
        cols[i - 1] + 1
    };
    let end = if i == cols.len() {
        tlen
    } else {
        cols[i]
    };
    (start, end)
}

/// Whether segment `i` is empty.
fn seg_is_empty(t: &Vec<u8>, cols: &Vec<usize>, i: usize) -> (b: bool)
    requires
        cols@.map_values(|d: usize| d as int) == colon_positions(t@),
        i <= cols@.len(),
    ensures
        b == seg_empty(t@, i as int),
{
    let (start, end) = seg_bounds(t, cols, i);
    start == end
}

/// Check one would-be hex group between `from` and `to`.
fn check_hex_group(t: &Vec<u8>, from: usize, to: usize) -> (ok: bool)
    requires
        from <= t@.len(),
        to <= t@.len(),
    ensures
        ok == hex_group(t@, from as int, to as int),
{
    if from >= to {
        return false;
    }
    if to - from > 4 {
        return false;
    }
    let mut i = from;
    while i < to
        invariant
            from <= i <= to <= t@.len(),
            forall|j: int| from <= j < i ==> is_hex_digit(#[trigger] t@[j]),
        decreases to - i,
    {
        let b = t[i];
        let digit = b >= 48 && b <= 57;
        let lower = b >= 97 && b <= 102;
        let upper = b >= 65 && b <= 70;
        if !(digit || lower || upper) {
            assert(!is_hex_digit(t@[i as int]));
            return false;
        }
        i = i + 1;
    }
    true
}

/// Whether segment `i` is one hex group.
fn seg_is_hex(t: &Vec<u8>, cols: &Vec<usize>, i: usize) -> (b: bool)
    requires
        cols@.map_values(|d: usize| d as int) == colon_positions(t@),
        i <= cols@.len(),
    ensures
        b == seg_hex(t@, i as int),
{
    let (start, end) = seg_bounds(t, cols, i);
    check_hex_group(t, start, end)
}

/// Whether segment `i` is an embedded dotted-quad address.
fn seg_is_v4(t: &Vec<u8>, cols: &Vec<usize>, i: usize) -> (b: bool)
    requires
        cols@.map_values(|d: usize| d as int) == colon_positions(t@),
        i <= cols@.len(),
    ensures
        b == seg_v4(t@, i as int),
{
    let (start, end) = seg_bounds(t, cols, i);
    check_v4_range(t, start, end)
}

/// Check the fully written shape.
fn check_full(t: &Vec<u8>, cols: &Vec<usize>) -> (ok: bool)
    requires
        cols@.map_values(|d: usize| d as int) == colon_positions(t@),
    ensures
        ok == ipv6_full(t@),
{
    let m = cols.len();
    if m == 7 {
        let mut q: usize = 0;
        while q < 8
            invariant
                q <= 8,
                m == 7,
                cols@.map_values(|d: usize| d as int) == colon_positions(t@),
                cols@.len() == 7,
                forall|j: int| 0 <= j < q ==> seg_hex(t@, j),
            decreases 8 - q,
        {
            if !seg_is_hex(t, cols, q) {
                return false;
            }
            q = q + 1;
        }
        true
    } else if m == 6 {
        let mut q: usize = 0;
        while q < 6
            invariant
                q <= 6,
                m == 6,
                cols@.map_values(|d: usize| d as int) == colon_positions(t@),
                cols@.len() == 6,
                forall|j: int| 0 <= j < q ==> seg_hex(t@, j),
            decreases 6 - q,
        {
            if !seg_is_hex(t, cols, q) {
                return false;
            }
            q = q + 1;
        }
        seg_is_v4(t, cols, 6)
    } else {
        false
    }
}

/// Find the first empty segment strictly inside, if any.
fn first_inner_empty(t: &Vec<u8>, cols: &Vec<usize>) -> (r: Option<usize>)
    requires
        cols@.map_values(|d: usize| d as int) == colon_positions(t@),
    ensures
        match r {
            Some(p) => 1 <= p <= cols@.len() - 1 && seg_empty(t@, p as int),
            None => forall|p: int| 1 <= p <= cols@.len() - 1 ==> !seg_empty(t@, p),
        },
{
    let m = cols.len();
    let mut p: usize = 1;
    while p < m
        invariant
            1 <= p,
            m == cols@.len(),
            cols@.map_values(|d: usize| d as int) == colon_positions(t@),
            forall|j: int| 1 <= j < p ==> !seg_empty(t@, j),
        decreases m - p,
    {
        if seg_is_empty(t, cols, p) {
            return Some(p);
        }
        p = p + 1;
    }
    None
}

/// An empty segment is no hex group.
proof fn lemma_empty_not_hex(s: Seq<u8>, i: int)
    requires
        seg_empty(s, i),
    ensures
        !seg_hex(s, i),
{
}

/// Check the shape with one inner `::`.
fn check_inner(t: &Vec<u8>, cols: &Vec<usize>) -> (ok: bool)
    requires
        cols@.map_values(|d: usize| d as int) == colon_positions(t@),
    ensures
        ok == ipv6_inner(t@),
{
    let m = cols.len();
    let p = match first_inner_empty(t, cols) {
        Some(p) => p,
        None => {
            return false;
        },
    };
    // every written segment but the last must be a hex group
    let mut q: usize = 0;
    while q < m
        invariant
            q <= m,
            m == cols@.len(),
            cols@.map_values(|d: usize| d as int) == colon_positions(t@),
            1 <= p <= m - 1,
            seg_empty(t@, p as int),
            forall|j: int| 0 <= j < q && j != p ==> seg_hex(t@, j),
        decreases m - q,
    {
        if q != p && !seg_is_hex(t, cols, q) {
            proof {
                // no other compression position can rescue the text: a
                // different witness would need this segment to be a hex
                // group, or, were this segment itself the witness, the
                // empty segment at p to be one
                assert forall|p2: int|
                    !(1 <= p2 <= m - 1 && #[trigger] seg_empty(t@, p2)
                        && (forall|j: int| 0 <= j < m && j != p2 ==> seg_hex(t@, j))
                        && ((seg_hex(t@, m as int) && m <= 7)
                            || (seg_v4(t@, m as int) && m + 1 <= 7))) by {
                    if 1 <= p2 <= m - 1 && seg_empty(t@, p2) {
                        if p2 == q {
                            lemma_empty_not_hex(t@, p as int);
                        }
                    }
                }
            }
            return false;
        }
        q = q + 1;
    }
    let hex_last = seg_is_hex(t, cols, m);
    if hex_last && m <= 7 {
        return true;
    }
    let v4_last = seg_is_v4(t, cols, m);
    if v4_last && m <= 6 {
        return true;
    }
    proof {
        // the condition on the last segment does not depend on the witness
        assert forall|p2: int|
            !(1 <= p2 <= m - 1 && #[trigger] seg_empty(t@, p2)
                && (forall|j: int| 0 <= j < m && j != p2 ==> seg_hex(t@, j))
                && ((seg_hex(t@, m as int) && m <= 7)
                    || (seg_v4(t@, m as int) && m + 1 <= 7))) by {}
    }
    false
}

/// Check the shape with a leading `::`.
fn check_leading(t: &Vec<u8>, cols: &Vec<usize>) -> (ok: bool)
    requires
        cols@.map_values(|d: usize| d as int) == colon_positions(t@),
    ensures
        ok == ipv6_leading(t@),
{
    let m = cols.len();
    if m < 2 {
        return false;
    }
    if !seg_is_empty(t, cols, 0) || !seg_is_empty(t, cols, 1) {
        return false;
    }
    let mut q: usize = 2;
    while q < m
        invariant
            2 <= q,
            m == cols@.len(),
            m >= 2,
            cols@.map_values(|d: usize| d as int) == colon_positions(t@),
            forall|j: int| 2 <= j < q ==> seg_hex(t@, j),
        decreases m - q,
    {
        if !seg_is_hex(t, cols, q) {
            return false;
        }
        q = q + 1;
    }
    let hex_last = seg_is_hex(t, cols, m);
    if hex_last && m - 1 <= 7 {
        return true;
    }
    let v4_last = seg_is_v4(t, cols, m);
    v4_last && m <= 7
}

/// Check the shape with a trailing `::`.
fn check_trailing(t: &Vec<u8>, cols: &Vec<usize>) -> (ok: bool)
    requires
        cols@.map_values(|d: usize| d as int) == colon_positions(t@),
    ensures
        ok == ipv6_trailing(t@),
{
    let m = cols.len();
    if m < 2 || m > 8 {
        return false;
    }
    if !seg_is_empty(t, cols, m - 1) || !seg_is_empty(t, cols, m) {
        return false;
    }
    let mut q: usize = 0;
    while q < m - 1
        invariant
            q <= m - 1,
            2 <= m <= 8,
            m == cols@.len(),
            cols@.map_values(|d: usize| d as int) == colon_positions(t@),
            forall|j: int| 0 <= j < q ==> seg_hex(t@, j),
        decreases m - 1 - q,
    {
        if !seg_is_hex(t, cols, q) {
            return false;
        }
        q = q + 1;
    }
    true
}

/// Check the bare `::`.
fn check_alone(t: &Vec<u8>, cols: &Vec<usize>) -> (ok: bool)
    requires
        cols@.map_values(|d: usize| d as int) == colon_positions(t@),
    ensures
        ok == ipv6_alone(t@),
{
    if cols.len() != 2 {
        return false;
    }
    seg_is_empty(t, cols, 0) && seg_is_empty(t, cols, 1) && seg_is_empty(t, cols, 2)
}

/// Decide whether a text is a well-formed colon-grouped address.
fn check_ipv6(t: &Vec<u8>) -> (ok: bool)
    ensures
        ok == valid_ipv6(t@),
{
    let cols = sep_scan(t, 0, t.len(), 58);
    proof {
        assert(t@.subrange(0, t@.len() as int) =~= t@);
    }
    if check_full(t, &cols) {
        return true;
    }
    if check_inner(t, &cols) {
        return true;
    }
    if check_leading(t, &cols) {
        return true;
    }
    if check_trailing(t, &cols) {
        return true;
    }
    check_alone(t, &cols)
}

/// Decide whether a target's address text may be admitted.
pub fn validate_target(t: &Vec<u8>) -> (ok: bool)
    ensures
        ok == valid_target(t@),
{
    proof {
        assert(t@.subrange(0, t@.len() as int) =~= t@);
    }
    if check_v4_range(t, 0, t.len()) {
        return true;
    }
    check_ipv6(t)
}

} // verus!
