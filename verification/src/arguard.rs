use vstd::prelude::*;

verus! {

// The archive reader of the `ar` crate is not total: on crafted bytes its
// header parsing can index the long-name table out of bounds (a GNU `/N`
// entry whose index exceeds the table read so far), or allocate a buffer
// as large as a fabricated size field before any bounds check. The walk
// below mirrors the reader's header traversal over the raw bytes and
// reports whether it stays inside them, so that the archive wrapper is
// only ever called on bytes the reader handles without aborting. The walk
// is conservative: where it cannot be certain the reader fails cleanly, it
// rejects, and a rejected archive simply contributes no symbols, as any
// malformed file does. Well-formed archives, in the common, GNU and BSD
// variants, always pass.

pub open spec fn is_ar_digit(b: u8) -> bool {
    48 <= b <= 57
}

/// The length of the leading run of decimal digits.
pub open spec fn digit_run(f: Seq<u8>) -> int
    decreases f.len(),
{
    if f.len() == 0 {
        0
    } else if !is_ar_digit(f[0]) {
        0
    } else {
        1 + digit_run(f.drop_first())
    }
}

/// The value of the first `d` bytes read as decimal digits.
pub open spec fn digits_val(f: Seq<u8>, d: int) -> int
    decreases d,
{
    if d <= 0 {
        0
    } else {
        digits_val(f, d - 1) * 10 + (f[d - 1] - 48)
    }
}

/// A header field in the one shape the walk accepts: at least one decimal
/// digit, padded to the right with spaces only. The reader itself accepts
/// this shape with the same value; any other shape the walk rejects.
pub open spec fn is_strict_field(f: Seq<u8>) -> bool {
    digit_run(f) >= 1 && (forall|i: int| digit_run(f) <= i < f.len() ==> f[i] == 32)
}

pub open spec fn field_val(f: Seq<u8>) -> int {
    digits_val(f, digit_run(f))
}

/// The identifier bytes with trailing spaces removed, as the reader strips
/// them.
pub open spec fn strip_trailing_spaces(f: Seq<u8>) -> Seq<u8>
    decreases f.len(),
{
    if f.len() > 0 && f[f.len() - 1] == 32 {
        strip_trailing_spaces(f.drop_last())
    } else {
        f
    }
}

pub open spec fn has_ar_magic(data: Seq<u8>) -> bool {
    &&& data.len() >= 8
    &&& data[0] == 33
    &&& data[1] == 60
    &&& data[2] == 97
    &&& data[3] == 114
    &&& data[4] == 99
    &&& data[5] == 104
    &&& data[6] == 62
    &&& data[7] == 10
}

/// One header at `pos`: classify the entry as the reader does and check
/// its hazards, then hand the advance to `ar_tail_safe`. `name_len` is the
/// length of the long-name table read so far; `gnu` and `bsd` track the
/// reader's archive-variant state.
pub open spec fn ar_step_safe(data: Seq<u8>, pos: int, name_len: int, gnu: bool, bsd: bool) -> bool
    decreases data.len() - pos, 1int,
{
    if pos < 0 || pos + 60 > data.len() {
        true
    } else {
        let szf = data.subrange(pos + 48, pos + 58);
        if !is_strict_field(szf) {
            false
        } else {
            let size = field_val(szf);
            let id = strip_trailing_spaces(data.subrange(pos, pos + 16));
            if !bsd && id.len() >= 1 && id[0] == 47 {
                if id.len() == 1 {
                    // the archive's own symbol table: skipped over
                    ar_tail_safe(data, pos, size, size, name_len, true, bsd)
                } else if id.len() == 2 && id[1] == 47 {
                    // the long-name table: its claimed size is allocated
                    // before it is read, so it must fit the bytes that follow
                    if size > data.len() - (pos + 60) {
                        false
                    } else {
                        ar_tail_safe(data, pos, size, size, size, true, bsd)
                    }
                } else {
                    // a long-name reference `/N`: the reader slices the name
                    // table at N without a bounds check
                    let idxf = data.subrange(pos + 1, pos + 16);
                    if !is_strict_field(idxf) {
                        false
                    } else if field_val(idxf) > name_len {
                        false
                    } else {
                        ar_tail_safe(data, pos, size, size, name_len, true, bsd)
                    }
                }
            } else if !bsd && id.len() >= 1 && id[id.len() - 1] == 47 {
                ar_tail_safe(data, pos, size, size, name_len, true, bsd)
            } else if !gnu && id.len() >= 3 && id[0] == 35 && id[1] == 49 && id[2] == 47 {
                // a BSD `#1/N` extended identifier: its claimed length is
                // allocated before it is read
                let blf = data.subrange(pos + 3, pos + 16);
                if !is_strict_field(blf) {
                    false
                } else {
                    let pl = field_val(blf);
                    if size < pl {
                        true
                    } else if pl > data.len() - (pos + 60) {
                        false
                    } else {
                        ar_tail_safe(data, pos, size, size - pl, name_len, gnu, true)
                    }
                }
            } else {
                ar_tail_safe(data, pos, size, size, name_len, gnu, bsd)
            }
        }
    }
}

/// Advances past the entry at `pos` whose total data length is `size` and
/// whose stored size (which decides padding) is `parity`, consuming the
/// `\n` padding byte after an odd-sized entry as the reader does.
pub open spec fn ar_tail_safe(
    data: Seq<u8>,
    pos: int,
    size: int,
    parity: int,
    name_len: int,
    gnu: bool,
    bsd: bool,
) -> bool
    decreases data.len() - pos, 0int,
{
    let pos2 = pos + 60 + size;
    if pos < 0 || size < 0 || pos2 > data.len() {
        true
    } else if parity % 2 == 1 {
        if pos2 == data.len() {
            true
        } else if data[pos2] != 10 {
            true
        } else {
            ar_step_safe(data, pos2 + 1, name_len, gnu, bsd)
        }
    } else {
        ar_step_safe(data, pos2, name_len, gnu, bsd)
    }
}

/// The archive bytes can be iterated by the reader without a panic or an
/// unbounded allocation. The overall length bound keeps every internal
/// offset of the reader comfortably inside its integer range.
pub open spec fn ar_walk_safe(data: Seq<u8>) -> bool {
    if data.len() > 0x2_0000_0000 {
        false
    } else if !has_ar_magic(data) {
        true
    } else {
        ar_step_safe(data, 8, 0, false, false)
    }
}

spec fn pow10(k: int) -> int
    decreases k,
{
    if k <= 0 {
        1
    } else {
        10 * pow10(k - 1)
    }
}

proof fn lemma_pow10_bounds()
    ensures
        pow10(15) == 0x38D7EA4C68000,
        forall|a: int, b: int| 0 <= a <= b ==> #[trigger] pow10(a) <= #[trigger] pow10(b),
{
    assert(pow10(0) == 1);
    assert(pow10(1) == 10);
    assert(pow10(2) == 100);
    assert(pow10(3) == 1000);
    assert(pow10(4) == 10000);
    assert(pow10(5) == 100000);
    assert(pow10(6) == 1000000);
    assert(pow10(7) == 10000000);
    assert(pow10(8) == 100000000);
    assert(pow10(9) == 1000000000);
    assert(pow10(10) == 10000000000);
    assert(pow10(11) == 100000000000);
    assert(pow10(12) == 1000000000000);
    assert(pow10(13) == 10000000000000);
    assert(pow10(14) == 100000000000000);
    assert(pow10(15) == 1000000000000000);
    assert forall|a: int, b: int| 0 <= a <= b implies #[trigger] pow10(a) <= #[trigger] pow10(
        b,
    ) by {
        lemma_pow10_monotone(a, b);
    }
}

proof fn lemma_pow10_monotone(a: int, b: int)
    requires
        0 <= a <= b,
    ensures
        0 < pow10(a) <= pow10(b),
    decreases b - a,
{
    if a < b {
        lemma_pow10_monotone(a, b - 1);
    } else {
        lemma_pow10_positive(a);
    }
}

proof fn lemma_pow10_positive(a: int)
    ensures
        pow10(a) >= 1,
    decreases a,
{
    if a > 0 {
        lemma_pow10_positive(a - 1);
    }
}

/// The value of a digit run is bounded by the run's length.
proof fn lemma_digits_val_bound(f: Seq<u8>, k: int)
    requires
        0 <= k <= f.len(),
        forall|i: int| 0 <= i < k ==> is_ar_digit(#[trigger] f[i]),
    ensures
        0 <= digits_val(f, k) < pow10(k),
    decreases k,
{
    if k > 0 {
        lemma_digits_val_bound(f, k - 1);
    }
}

/// The digit run lies within the field and covers digits only.
proof fn lemma_digit_run_props(f: Seq<u8>)
    ensures
        0 <= digit_run(f) <= f.len(),
        forall|i: int| 0 <= i < digit_run(f) ==> is_ar_digit(#[trigger] f[i]),
    decreases f.len(),
{
    if f.len() > 0 && is_ar_digit(f[0]) {
        let g = f.drop_first();
        lemma_digit_run_props(g);
        assert forall|i: int| 0 <= i < digit_run(f) implies is_ar_digit(#[trigger] f[i]) by {
            if i > 0 {
                assert(g[i - 1] == f[i]);
            }
        }
    }
}

/// The digit run is the unique boundary between leading digits and what
/// follows.
proof fn lemma_digit_run_char(f: Seq<u8>, d: int)
    requires
        0 <= d <= f.len(),
        forall|i: int| 0 <= i < d ==> is_ar_digit(#[trigger] f[i]),
        d == f.len() || !is_ar_digit(f[d]),
    ensures
        digit_run(f) == d,
    decreases f.len(),
{
    if f.len() == 0 {
    } else if !is_ar_digit(f[0]) {
        assert(d == 0);
    } else {
        assert(d >= 1);
        let g = f.drop_first();
        assert forall|i: int| 0 <= i < d - 1 implies is_ar_digit(#[trigger] g[i]) by {
            assert(g[i] == f[i + 1]);
        }
        if d < f.len() {
            assert(g[d - 1] == f[d]);
        }
        lemma_digit_run_char(g, d - 1);
    }
}

/// Digit values agree on a common digit prefix.
proof fn lemma_digits_val_agree(f: Seq<u8>, g: Seq<u8>, k: int)
    requires
        0 <= k <= f.len(),
        k <= g.len(),
        forall|i: int| 0 <= i < k ==> f[i] == g[i],
    ensures
        digits_val(f, k) == digits_val(g, k),
    decreases k,
{
    if k > 0 {
        lemma_digits_val_agree(f, g, k - 1);
    }
}

/// Parses one fixed-width header field in the strict shape the walk
/// accepts: decimal digits padded with trailing spaces.
fn parse_field(data: &Vec<u8>, start: usize, flen: usize) -> (r: Option<u64>)
    requires
        start + flen <= data@.len(),
        flen <= 15,
    ensures
        match r {
            Some(v) => is_strict_field(data@.subrange(start as int, start + flen)) && v
                == field_val(data@.subrange(start as int, start + flen)),
            None => !is_strict_field(data@.subrange(start as int, start + flen)),
        },
{
    let n: usize = data.len();
    let ghost f = data@.subrange(start as int, start + flen);
    let mut d: usize = 0;
    let mut scanning = true;
    while scanning && d < flen
        invariant
            n == data@.len(),
            start + flen <= data@.len(),
            flen <= 15,
            d <= flen,
            f == data@.subrange(start as int, start + flen),
            forall|i: int| 0 <= i < d ==> is_ar_digit(#[trigger] f[i]),
            !scanning ==> d < flen && !is_ar_digit(f[d as int]),
        decreases flen - d + (if scanning { 1int } else { 0int }),
    {
        let b = data[start + d];
        assert(f[d as int] == b);
        if 48 <= b && b <= 57 {
            d = d + 1;
        } else {
            scanning = false;
        }
    }
    proof {
        lemma_digit_run_char(f, d as int);
    }
    if d == 0 {
        return None;
    }
    let mut t: usize = d;
    while t < flen
        invariant
            n == data@.len(),
            start + flen <= data@.len(),
            d <= t <= flen,
            f == data@.subrange(start as int, start + flen),
            digit_run(f) == d,
            forall|i: int| d <= i < t ==> #[trigger] f[i] == 32,
        decreases flen - t,
    {
        let b = data[start + t];
        assert(f[t as int] == b);
        if b != 32 {
            return None;
        }
        t = t + 1;
    }
    assert(is_strict_field(f));
    let mut val: u64 = 0;
    let mut k: usize = 0;
    proof {
        lemma_pow10_bounds();
    }
    while k < d
        invariant
            n == data@.len(),
            start + flen <= data@.len(),
            k <= d,
            d <= flen <= 15,
            f == data@.subrange(start as int, start + flen),
            digit_run(f) == d,
            forall|i: int| 0 <= i < d ==> is_ar_digit(#[trigger] f[i]),
            val == digits_val(f, k as int),
            pow10(15) == 0x38D7EA4C68000,
            forall|a: int, b: int| 0 <= a <= b ==> #[trigger] pow10(a) <= #[trigger] pow10(b),
        decreases d - k,
    {
        proof {
            lemma_digits_val_bound(f, k as int);
            assert(pow10(k as int) <= pow10(15));
        }
        let b = data[start + k];
        assert(f[k as int] == b);
        assert(is_ar_digit(f[k as int]));
        val = val * 10 + ((b - 48) as u64);
        k = k + 1;
    }
    Some(val)
}

/// Reports whether the archive reader's walk over these bytes stays
/// inside them, so that handing them to the reader cannot abort.
pub fn archive_walk_safe(data: &Vec<u8>) -> (r: bool)
    ensures
        r == ar_walk_safe(data@),
{
    let n: usize = data.len();
    if (n as u64) > 0x2_0000_0000u64 {
        return false;
    }
    if n < 8 {
        return true;
    }
    if !(data[0] == 33 && data[1] == 60 && data[2] == 97 && data[3] == 114 && data[4] == 99
        && data[5] == 104 && data[6] == 62 && data[7] == 10) {
        return true;
    }
    proof {
        assert(has_ar_magic(data@));
    }
    let mut pos: usize = 8;
    let mut name_len: u64 = 0;
    let mut gnu = false;
    let mut bsd = false;
    while (pos as u64) + 60 <= (n as u64)
        invariant
            n == data@.len(),
            n <= 0x2_0000_0000,
            8 <= pos <= n,
            ar_walk_safe(data@) == ar_step_safe(data@, pos as int, name_len as int, gnu, bsd),
        decreases n - pos,
    {
        let size = match parse_field(data, pos + 48, 10) {
            Some(v) => v,
            None => {
                return false;
            },
        };
        let ghost szf = data@.subrange(pos + 48, pos as int + 58);
        assert(size == field_val(szf));
        proof {
            lemma_pow10_bounds();
            lemma_digit_run_props(szf);
            lemma_digits_val_bound(szf, digit_run(szf));
            assert(pow10(digit_run(szf)) <= pow10(15));
        }
        assert(size < 0x38D7EA4C68000);
        let mut id_end: usize = 16;
        while id_end > 0 && data[pos + id_end - 1] == 32
            invariant
                n == data@.len(),
                pos + 60 <= n,
                id_end <= 16,
                strip_trailing_spaces(data@.subrange(pos as int, pos as int + 16))
                    == strip_trailing_spaces(data@.subrange(pos as int, pos + id_end)),
            decreases id_end,
        {
            proof {
                let cur = data@.subrange(pos as int, pos + id_end);
                assert(cur[id_end - 1] == data@[pos + id_end - 1]);
                assert(cur.drop_last() =~= data@.subrange(pos as int, pos + id_end - 1));
            }
            id_end = id_end - 1;
        }
        let ghost id = strip_trailing_spaces(data@.subrange(pos as int, pos as int + 16));
        proof {
            let cur = data@.subrange(pos as int, pos + id_end);
            if id_end > 0 {
                assert(cur[id_end - 1] == data@[pos + id_end - 1]);
            }
            assert(strip_trailing_spaces(cur) == cur);
            assert(id == cur);
        }
        assert(id.len() == id_end);
        assert(forall|i: int| 0 <= i < id_end ==> id[i] == data@[pos + i]);
        let mut parity: u64 = size;
        if !bsd && id_end >= 1 && data[pos] == 47 {
            if id_end == 1 {
                gnu = true;
            } else if id_end == 2 && data[pos + 1] == 47 {
                if size > (n as u64) - ((pos as u64) + 60) {
                    return false;
                }
                name_len = size;
                gnu = true;
            } else {
                let idx = match parse_field(data, pos + 1, 15) {
                    Some(v) => v,
                    None => {
                        return false;
                    },
                };
                if idx > name_len {
                    return false;
                }
                gnu = true;
            }
        } else if !bsd && id_end >= 1 && data[pos + id_end - 1] == 47 {
            gnu = true;
        } else if !gnu && id_end >= 3 && data[pos] == 35 && data[pos + 1] == 49 && data[pos + 2]
            == 47 {
            let pl = match parse_field(data, pos + 3, 13) {
                Some(v) => v,
                None => {
                    return false;
                },
            };
            if size < pl {
                return true;
            }
            if pl > (n as u64) - ((pos as u64) + 60) {
                return false;
            }
            parity = size - pl;
            bsd = true;
        }
        let pos2: u64 = (pos as u64) + 60 + size;
        if pos2 > (n as u64) {
            return true;
        }
        let pos2u: usize = pos2 as usize;
        if parity % 2 == 1 {
            if pos2u == n {
                return true;
            }
            if data[pos2u] != 10 {
                return true;
            }
            pos = pos2u + 1;
        } else {
            pos = pos2u;
        }
    }
    true
}

} // verus!
