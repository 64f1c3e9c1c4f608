//! Byte-level pieces of the textual address grammar: character classes,
//! digit values and the splitting of a text at a separator byte.

use vstd::prelude::*;

verus! {

/// ASCII '.'
pub const DOT: u8 = 46;

/// ASCII ':'
pub const COLON: u8 = 58;

/// The pieces of `s` between occurrences of `sep`, from left to right.
/// A text with `n` separators has `n + 1` pieces, some of which may be empty.
pub open spec fn split(s: Seq<u8>, sep: u8) -> Seq<Seq<u8>>
    decreases s.len(),
{
    if s.len() == 0 {
        seq![Seq::<u8>::empty()]
    } else {
        let pieces = split(s.drop_last(), sep);
        if s.last() == sep {
            pieces.push(Seq::<u8>::empty())
        } else {
            pieces.update(pieces.len() - 1, pieces.last().push(s.last()))
        }
    }
}

pub proof fn lemma_split_nonempty(s: Seq<u8>, sep: u8)
    ensures
        split(s, sep).len() >= 1,
    decreases s.len(),
{
    if s.len() > 0 {
        lemma_split_nonempty(s.drop_last(), sep);
    }
}

/// The pieces put back together with `sep` between neighbours.
pub open spec fn join(pieces: Seq<Seq<u8>>, sep: u8) -> Seq<u8>
    decreases pieces.len(),
{
    if pieces.len() == 0 {
        Seq::<u8>::empty()
    } else if pieces.len() == 1 {
        pieces[0]
    } else {
        join(pieces.drop_last(), sep).push(sep) + pieces.last()
    }
}

pub open spec fn free_of(t: Seq<u8>, sep: u8) -> bool {
    forall|i: int| 0 <= i < t.len() ==> #[trigger] t[i] != sep
}

pub proof fn lemma_free_concat(x: Seq<u8>, y: Seq<u8>, sep: u8)
    requires
        free_of(x, sep),
        free_of(y, sep),
    ensures
        free_of(x + y, sep),
{
    assert forall|i: int| 0 <= i < (x + y).len() implies #[trigger] (x + y)[i] != sep by {
        if i < x.len() {
            assert((x + y)[i] == x[i]);
        } else {
            assert((x + y)[i] == y[i - x.len()]);
        }
    }
}

/// Splitting loses nothing: joining the pieces gives the text back, and no
/// piece holds the separator.
pub proof fn lemma_split_join(s: Seq<u8>, sep: u8)
    ensures
        join(split(s, sep), sep) == s,
        forall|i: int| 0 <= i < split(s, sep).len() ==> free_of(#[trigger] split(s, sep)[i], sep),
    decreases s.len(),
{
    if s.len() > 0 {
        let prev = s.drop_last();
        let p = split(prev, sep);
        lemma_split_join(prev, sep);
        lemma_split_nonempty(prev, sep);
        let c = s.last();
        if c == sep {
            assert(split(s, sep).drop_last() =~= p);
            assert(s =~= prev.push(sep) + Seq::<u8>::empty());
            assert forall|i: int| 0 <= i < split(s, sep).len() implies free_of(
                #[trigger] split(s, sep)[i],
                sep,
            ) by {
                if i < p.len() {
                    assert(split(s, sep)[i] == p[i]);
                }
            }
        } else {
            let q = split(s, sep);
            assert(q == p.update(p.len() - 1, p.last().push(c)));
            if p.len() == 1 {
                assert(s =~= p[0].push(c));
            } else {
                assert(q.drop_last() =~= p.drop_last());
                assert(prev == join(p.drop_last(), sep).push(sep) + p.last());
                assert(s =~= prev.push(c));
                assert(s =~= join(p.drop_last(), sep).push(sep) + p.last().push(c));
            }
            assert forall|i: int| 0 <= i < q.len() implies free_of(#[trigger] q[i], sep) by {
                if i < p.len() - 1 {
                    assert(q[i] == p[i]);
                } else {
                    assert(free_of(p.last(), sep));
                    assert forall|j: int| 0 <= j < q[i].len() implies #[trigger] q[i][j] != sep by {
                        if j < p.last().len() {
                            assert(q[i][j] == p.last()[j]);
                        }
                    }
                }
            }
        }
    }
}

/// A text without the separator is a single piece.
pub proof fn lemma_split_free(t: Seq<u8>, sep: u8)
    requires
        free_of(t, sep),
    ensures
        split(t, sep) == seq![t],
    decreases t.len(),
{
    if t.len() > 0 {
        assert(free_of(t.drop_last(), sep)) by {
            assert forall|i: int| 0 <= i < t.drop_last().len() implies #[trigger] t.drop_last()[i]
                != sep by {
                assert(t.drop_last()[i] == t[i]);
            }
        }
        lemma_split_free(t.drop_last(), sep);
        assert(t.last() == t[t.len() - 1]);
        assert(t[t.len() - 1] != sep);
        assert(t.drop_last().push(t.last()) =~= t);
        assert(split(t, sep) =~= seq![t]);
    } else {
        assert(t =~= Seq::<u8>::empty());
    }
}

/// Splitting a text at a separator of its own splits the two sides apart.
pub proof fn lemma_split_concat(x: Seq<u8>, y: Seq<u8>, sep: u8)
    ensures
        split(x.push(sep) + y, sep) == split(x, sep) + split(y, sep),
    decreases y.len(),
{
    lemma_split_nonempty(x, sep);
    if y.len() == 0 {
        assert(x.push(sep) + y =~= x.push(sep));
        assert(x.push(sep).drop_last() =~= x);
        assert(split(x, sep) + split(y, sep) =~= split(x, sep).push(Seq::<u8>::empty()));
    } else {
        let z = x.push(sep) + y;
        assert(z.drop_last() =~= x.push(sep) + y.drop_last());
        assert(z.last() == y.last());
        lemma_split_concat(x, y.drop_last(), sep);
        lemma_split_nonempty(y.drop_last(), sep);
        let a = split(x, sep);
        let b = split(y.drop_last(), sep);
        if y.last() == sep {
            assert(split(z, sep) =~= a + b.push(Seq::<u8>::empty()));
        } else {
            assert(split(z, sep) =~= a + b.update(b.len() - 1, b.last().push(y.last())));
        }
    }
}

/// Pieces free of the separator are split back out of their join.
pub proof fn lemma_split_of_join(ps: Seq<Seq<u8>>, sep: u8)
    requires
        ps.len() >= 1,
        forall|i: int| 0 <= i < ps.len() ==> free_of(#[trigger] ps[i], sep),
    ensures
        split(join(ps, sep), sep) == ps,
    decreases ps.len(),
{
    if ps.len() == 1 {
        lemma_split_free(ps[0], sep);
        assert(ps =~= seq![ps[0]]);
    } else {
        let init = ps.drop_last();
        assert forall|i: int| 0 <= i < init.len() implies free_of(#[trigger] init[i], sep) by {
            assert(init[i] == ps[i]);
        }
        lemma_split_of_join(init, sep);
        assert(free_of(ps[ps.len() - 1], sep));
        lemma_split_free(ps.last(), sep);
        lemma_split_concat(join(init, sep), ps.last(), sep);
        assert(init + seq![ps.last()] =~= ps);
    }
}

/// A join holds a byte only where its separator or one of its pieces does.
pub proof fn lemma_join_free(ps: Seq<Seq<u8>>, sep: u8, b: u8)
    requires
        sep != b,
        forall|i: int| 0 <= i < ps.len() ==> free_of(#[trigger] ps[i], b),
    ensures
        free_of(join(ps, sep), b),
    decreases ps.len(),
{
    if ps.len() == 0 {
    } else if ps.len() == 1 {
        assert(free_of(ps[0], b));
    } else {
        let init = ps.drop_last();
        assert forall|i: int| 0 <= i < init.len() implies free_of(#[trigger] init[i], b) by {
            assert(init[i] == ps[i]);
        }
        lemma_join_free(init, sep, b);
        assert(free_of(ps[ps.len() - 1], b));
        let j = join(init, sep);
        assert(free_of(j.push(sep), b)) by {
            assert forall|i: int| 0 <= i < j.push(sep).len() implies #[trigger] j.push(sep)[i]
                != b by {
                if i < j.len() {
                    assert(j.push(sep)[i] == j[i]);
                }
            }
        }
        lemma_free_concat(j.push(sep), ps.last(), b);
    }
}

/// A join of non-empty pieces begins with its first piece and ends with its
/// last; a join of no pieces is empty.
pub proof fn lemma_join_ends(ps: Seq<Seq<u8>>, sep: u8)
    requires
        forall|i: int| 0 <= i < ps.len() ==> (#[trigger] ps[i]).len() >= 1,
    ensures
        ps.len() == 0 ==> join(ps, sep).len() == 0,
        ps.len() >= 1 ==> join(ps, sep).len() >= 1 && join(ps, sep)[0] == ps[0][0] && join(
            ps,
            sep,
        )[join(ps, sep).len() - 1] == ps[ps.len() - 1][ps[ps.len() - 1].len() - 1],
    decreases ps.len(),
{
    if ps.len() >= 2 {
        let init = ps.drop_last();
        assert forall|i: int| 0 <= i < init.len() implies (#[trigger] init[i]).len() >= 1 by {
            assert(init[i] == ps[i]);
        }
        lemma_join_ends(init, sep);
        assert(ps[ps.len() - 1].len() >= 1);
        let j = join(init, sep);
        let l = ps.last();
        assert(join(ps, sep) == j.push(sep) + l);
        assert((j.push(sep) + l)[0] == j[0]);
        assert(init[0] == ps[0]);
    } else if ps.len() == 1 {
        assert(ps[0].len() >= 1);
    }
}

/// Joining non-empty pieces free of the separator never puts two
/// separators side by side.
pub proof fn lemma_join_no_adjacent_seps(ps: Seq<Seq<u8>>, sep: u8)
    requires
        forall|i: int|
            0 <= i < ps.len() ==> free_of(#[trigger] ps[i], sep) && ps[i].len() >= 1,
    ensures
        forall|k: int|
            0 <= k && k + 1 < join(ps, sep).len() ==> !(#[trigger] join(ps, sep)[k] == sep
                && join(ps, sep)[k + 1] == sep),
    decreases ps.len(),
{
    if ps.len() == 1 {
        assert(free_of(ps[0], sep));
    } else if ps.len() > 1 {
        let init = ps.drop_last();
        assert forall|i: int| 0 <= i < init.len() implies free_of(#[trigger] init[i], sep)
            && init[i].len() >= 1 by {
            assert(init[i] == ps[i]);
        }
        lemma_join_no_adjacent_seps(init, sep);
        let j = join(init, sep);
        let l = ps.last();
        assert(free_of(ps[ps.len() - 1], sep) && ps[ps.len() - 1].len() >= 1);
        assert(free_of(init[init.len() - 1], sep) && init[init.len() - 1].len() >= 1);
        // the join of the first pieces ends with the last of them
        assert(j.len() >= 1 && j[j.len() - 1] != sep) by {
            if init.len() == 1 {
                assert(j == init[0]);
            } else {
                let il = init.last();
                assert(j == join(init.drop_last(), sep).push(sep) + il);
                assert(j[j.len() - 1] == il[il.len() - 1]);
            }
        }
        let full = j.push(sep) + l;
        assert(join(ps, sep) == full);
        assert forall|k: int| 0 <= k && k + 1 < full.len() implies !(#[trigger] full[k] == sep
            && full[k + 1] == sep) by {
            if k + 1 < j.len() {
                assert(full[k] == j[k] && full[k + 1] == j[k + 1]);
            } else if k + 1 == j.len() {
                assert(full[k] == j[k]);
            } else if k == j.len() {
                assert(full[k + 1] == l[0]);
            } else {
                assert(full[k] == l[k - j.len() - 1]);
            }
        }
    }
}

/// The texts that a list of index ranges selects from `s`.
pub open spec fn ranges_view(s: Seq<u8>, ranges: Seq<(usize, usize)>) -> Seq<Seq<u8>> {
    ranges.map_values(|r: (usize, usize)| s.subrange(r.0 as int, r.1 as int))
}

/// Index ranges of the pieces of `s[start..end]` between occurrences of `sep`.
pub fn split_ranges(s: &[u8], start: usize, end: usize, sep: u8) -> (res: Vec<(usize, usize)>)
    requires
        start <= end <= s@.len(),
    ensures
        ranges_view(s@, res@) == split(s@.subrange(start as int, end as int), sep),
        forall|k: int|
            0 <= k < res@.len() ==> start <= #[trigger] res@[k].0 <= res@[k].1 <= end,
{
    let mut pieces: Vec<(usize, usize)> = Vec::new();
    let mut cur: usize = start;
    let mut i: usize = start;
    assert(s@.subrange(start as int, start as int) =~= Seq::<u8>::empty());
    assert(ranges_view(s@, pieces@).push(s@.subrange(cur as int, i as int)) =~= split(
        s@.subrange(start as int, i as int),
        sep,
    ));
    while i < end
        invariant
            start <= cur <= i <= end <= s@.len(),
            ranges_view(s@, pieces@).push(s@.subrange(cur as int, i as int)) == split(
                s@.subrange(start as int, i as int),
                sep,
            ),
            forall|k: int|
                0 <= k < pieces@.len() ==> start <= #[trigger] pieces@[k].0 <= pieces@[k].1
                    <= cur,
        decreases end - i,
    {
        let ghost prev = s@.subrange(start as int, i as int);
        let ghost next = s@.subrange(start as int, i + 1);
        assert(next.drop_last() =~= prev);
        assert(next.last() == s@[i as int]);
        if s[i] == sep {
            pieces.push((cur, i));
            assert(ranges_view(s@, pieces@) =~= ranges_view(s@, pieces@.drop_last()).push(
                s@.subrange(cur as int, i as int),
            ));
            cur = i + 1;
            i = i + 1;
            assert(s@.subrange(cur as int, i as int) =~= Seq::<u8>::empty());
            assert(ranges_view(s@, pieces@).push(s@.subrange(cur as int, i as int)) =~= split(
                next,
                sep,
            ));
        } else {
            assert(s@.subrange(cur as int, i + 1) =~= s@.subrange(cur as int, i as int).push(
                s@[i as int],
            ));
            i = i + 1;
            assert(ranges_view(s@, pieces@).push(s@.subrange(cur as int, i as int)) =~= split(
                next,
                sep,
            ));
        }
    }
    pieces.push((cur, end));
    assert(ranges_view(s@, pieces@) =~= ranges_view(s@, pieces@.drop_last()).push(
        s@.subrange(cur as int, end as int),
    ));
    pieces
}

pub open spec fn is_dec_digit(b: u8) -> bool {
    48 <= b <= 57
}

pub open spec fn is_hex_digit(b: u8) -> bool {
    is_dec_digit(b) || 65 <= b <= 70 || 97 <= b <= 102
}

/// Value of a decimal or hexadecimal digit, upper or lower case.
pub open spec fn digit_value(b: u8) -> int {
    if is_dec_digit(b) {
        b - 48
    } else if 65 <= b <= 70 {
        b - 55
    } else {
        b - 87
    }
}

pub open spec fn all_dec_digits(t: Seq<u8>) -> bool {
    forall|i: int| 0 <= i < t.len() ==> is_dec_digit(#[trigger] t[i])
}

pub open spec fn all_hex_digits(t: Seq<u8>) -> bool {
    forall|i: int| 0 <= i < t.len() ==> is_hex_digit(#[trigger] t[i])
}

/// The number that a string of decimal digits denotes, most significant first.
pub open spec fn decimal_value(t: Seq<u8>) -> int
    decreases t.len(),
{
    if t.len() == 0 {
        0
    } else {
        decimal_value(t.drop_last()) * 10 + digit_value(t.last())
    }
}

/// The number that a string of hexadecimal digits denotes, most significant first.
pub open spec fn hex_value(t: Seq<u8>) -> int
    decreases t.len(),
{
    if t.len() == 0 {
        0
    } else {
        hex_value(t.drop_last()) * 16 + digit_value(t.last())
    }
}

/// An octet of a dotted-decimal address: one to three decimal digits, no
/// leading zero unless the octet is the single digit `0`, value at most 255.
pub open spec fn octet_value(t: Seq<u8>) -> Option<u8> {
    if 1 <= t.len() <= 3 && all_dec_digits(t) && (t.len() == 1 || t[0] != 48)
        && decimal_value(t) <= 255 {
        Some(decimal_value(t) as u8)
    } else {
        None
    }
}

/// A group of an IPv6 address: one to four hexadecimal digits of either case
/// (leading zeros allowed).
pub open spec fn group_value(t: Seq<u8>) -> Option<u16> {
    if 1 <= t.len() <= 4 && all_hex_digits(t) {
        Some(hex_value(t) as u16)
    } else {
        None
    }
}

fn is_dec_digit_byte(b: u8) -> (res: bool)
    ensures
        res == is_dec_digit(b),
{
    48 <= b && b <= 57
}

fn hex_digit_of(b: u8) -> (res: Option<u8>)
    ensures
        match res {
            Some(d) => is_hex_digit(b) && d == digit_value(b) && d < 16,
            None => !is_hex_digit(b),
        },
{
    if 48 <= b && b <= 57 {
        Some(b - 48)
    } else if 65 <= b && b <= 70 {
        Some(b - 55)
    } else if 97 <= b && b <= 102 {
        Some(b - 87)
    } else {
        None
    }
}

/// Reads the octet `s[start..end]`.
pub fn parse_octet(s: &[u8], start: usize, end: usize) -> (res: Option<u8>)
    requires
        start <= end <= s@.len(),
    ensures
        res == octet_value(s@.subrange(start as int, end as int)),
{
    let ghost t = s@.subrange(start as int, end as int);
    if end - start < 1 || end - start > 3 {
        return None;
    }
    if end - start > 1 && s[start] == 48 {
        assert(t[0] == 48);
        return None;
    }
    let mut val: u32 = 0;
    let mut i: usize = start;
    assert(s@.subrange(start as int, start as int) =~= Seq::<u8>::empty());
    while i < end
        invariant
            start <= i <= end <= s@.len(),
            end - start <= 3,
            t == s@.subrange(start as int, end as int),
            all_dec_digits(s@.subrange(start as int, i as int)),
            val == decimal_value(s@.subrange(start as int, i as int)),
            i - start <= 2 ==> val < 100,
            i - start <= 1 ==> val < 10,
            val < 1000,
        decreases end - i,
    {
        let b = s[i];
        if !is_dec_digit_byte(b) {
            assert(t[i - start] == b);
            return None;
        }
        let ghost prev = s@.subrange(start as int, i as int);
        let ghost next = s@.subrange(start as int, i + 1);
        assert(next.drop_last() =~= prev);
        val = val * 10 + (b - 48) as u32;
        i = i + 1;
        assert(all_dec_digits(next)) by {
            assert forall|k: int| 0 <= k < next.len() implies is_dec_digit(#[trigger] next[k]) by {
                if k < prev.len() {
                    assert(next[k] == prev[k]);
                }
            }
        }
    }
    assert(s@.subrange(start as int, i as int) =~= t);
    if val > 255 {
        None
    } else {
        Some(val as u8)
    }
}

/// Reads the IPv6 group `s[start..end]`.
pub fn parse_group(s: &[u8], start: usize, end: usize) -> (res: Option<u16>)
    requires
        start <= end <= s@.len(),
    ensures
        res == group_value(s@.subrange(start as int, end as int)),
{
    let ghost t = s@.subrange(start as int, end as int);
    if end - start < 1 || end - start > 4 {
        return None;
    }
    let mut val: u32 = 0;
    let mut i: usize = start;
    assert(s@.subrange(start as int, start as int) =~= Seq::<u8>::empty());
    while i < end
        invariant
            start <= i <= end <= s@.len(),
            end - start <= 4,
            t == s@.subrange(start as int, end as int),
            all_hex_digits(s@.subrange(start as int, i as int)),
            val == hex_value(s@.subrange(start as int, i as int)),
            i - start <= 3 ==> val < 4096,
            i - start <= 2 ==> val < 256,
            i - start <= 1 ==> val < 16,
            val < 65536,
        decreases end - i,
    {
        let b = s[i];
        let d = match hex_digit_of(b) {
            Some(d) => d,
            None => {
                assert(t[i - start] == b);
                return None;
            },
        };
        let ghost prev = s@.subrange(start as int, i as int);
        let ghost next = s@.subrange(start as int, i + 1);
        assert(next.drop_last() =~= prev);
        val = val * 16 + d as u32;
        i = i + 1;
        assert(all_hex_digits(next)) by {
            assert forall|k: int| 0 <= k < next.len() implies is_hex_digit(#[trigger] next[k]) by {
                if k < prev.len() {
                    assert(next[k] == prev[k]);
                }
            }
        }
    }
    assert(s@.subrange(start as int, i as int) =~= t);
    Some(val as u16)
}

} // verus!
