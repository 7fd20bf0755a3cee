//! Reading the remote buildpack listing.
//!
//! The remote CLI prints the current buildpacks either as numbered
//! lines (`1. heroku/nodejs`), one per buildpack, or — when exactly
//! one is set — as a line `Buildpack URL` followed by the identifier
//! on the next line. `parse_buildpacks` turns such a listing into the
//! observed ordered sequence: each numbered line is inserted at the
//! position its number names (one-based in the listing, zero-based in
//! the result), and a listing without numbered lines falls back to
//! the single-buildpack form.

use vstd::prelude::*;

verus! {

/// Why a remote listing was rejected as malformed.
#[derive(Clone, Copy, Debug, PartialEq, Eq, Structural)]
pub enum ParseError {
    /// A line's number does not fit the machine's index type.
    BadNumber,
    /// A line's number names a position outside the sequence built so
    /// far, or is zero.
    BadPosition,
}

/// An ASCII decimal digit.
pub open spec fn is_digit(c: char) -> bool {
    48 <= c as int <= 57
}

/// The index of the first line break at or after `i`, or the text's
/// length when the rest of the text is one line.
pub open spec fn line_end(s: Seq<char>, i: int) -> int
    decreases s.len() - i,
{
    if i < 0 || i >= s.len() {
        s.len() as int
    } else if s[i] == '\n' {
        i
    } else {
        line_end(s, i + 1)
    }
}

pub proof fn lemma_line_end_bounds(s: Seq<char>, i: int)
    requires
        0 <= i <= s.len(),
    ensures
        i <= line_end(s, i) <= s.len(),
        forall|j: int| i <= j < line_end(s, i) ==> s[j] != '\n',
        line_end(s, i) < s.len() ==> s[line_end(s, i)] == '\n',
    decreases s.len() - i,
{
    if i < s.len() && s[i] != '\n' {
        lemma_line_end_bounds(s, i + 1);
    }
}

/// The index of the first non-digit at or after `i` in a line, or the
/// line's length when digits run to its end.
pub open spec fn digit_run(l: Seq<char>, i: int) -> int
    decreases l.len() - i,
{
    if i < 0 || i >= l.len() {
        l.len() as int
    } else if is_digit(l[i]) {
        digit_run(l, i + 1)
    } else {
        i
    }
}

pub proof fn lemma_digit_run_bounds(l: Seq<char>, i: int)
    requires
        0 <= i <= l.len(),
    ensures
        i <= digit_run(l, i) <= l.len(),
        forall|j: int| i <= j < digit_run(l, i) ==> is_digit(l[j]),
        digit_run(l, i) < l.len() ==> !is_digit(l[digit_run(l, i)]),
    decreases l.len() - i,
{
    if i < l.len() && is_digit(l[i]) {
        lemma_digit_run_bounds(l, i + 1);
    }
}

/// The value of a digit sequence read in decimal after the value
/// `acc` of the digits already read.
pub open spec fn decimal_val(ds: Seq<char>, acc: int) -> int
    decreases ds.len(),
{
    if ds.len() == 0 {
        acc
    } else {
        decimal_val(ds.drop_first(), acc * 10 + (ds[0] as int - 48))
    }
}

/// Reading further digits never lowers a non-negative value.
pub proof fn lemma_decimal_val_lower(ds: Seq<char>, acc: int)
    requires
        acc >= 0,
        forall|k: int| 0 <= k < ds.len() ==> is_digit(ds[k]),
    ensures
        decimal_val(ds, acc) >= acc,
    decreases ds.len(),
{
    if ds.len() > 0 {
        assert(is_digit(ds[0]));
        let tail = ds.drop_first();
        assert(forall|k: int| 0 <= k < tail.len() ==> is_digit(#[trigger] tail[k]));
        lemma_decimal_val_lower(tail, acc * 10 + (ds[0] as int - 48));
    }
}

/// What a numbered line contributes: its number and the name after
/// the separator. A line is a numbered entry when it starts with one
/// or more ASCII digits, continues with `.` and a space, and carries
/// at least one further character as the name.
pub open spec fn line_entry(l: Seq<char>) -> Option<(int, Seq<char>)> {
    let d = digit_run(l, 0);
    if d > 0 && d + 2 < l.len() && l[d] == '.' && l[d + 1] == ' ' {
        Some((decimal_val(l.subrange(0, d), 0), l.subrange(d + 2, l.len() as int)))
    } else {
        None
    }
}

/// Folds the lines of the text from char position `i` into the
/// sequence built so far. A line that is no numbered entry is passed
/// over; a numbered entry is inserted at the position its number
/// names, and a number that does not fit the index type, is zero, or
/// points past the end of what is built so far rejects the listing.
pub open spec fn entries_from(s: Seq<char>, i: int, acc: Seq<Seq<char>>) -> Result<
    Seq<Seq<char>>,
    ParseError,
>
    decreases s.len() - i
        when 0 <= i <= s.len()
        via entries_from_decreases
{
    let e = line_end(s, i);
    let step: Result<Seq<Seq<char>>, ParseError> = match line_entry(s.subrange(i, e)) {
        None => Ok(acc),
        Some(entry) => {
            if entry.0 > usize::MAX as int {
                Err(ParseError::BadNumber)
            } else if entry.0 < 1 || entry.0 - 1 > acc.len() {
                Err(ParseError::BadPosition)
            } else {
                Ok(acc.insert(entry.0 - 1, entry.1))
            }
        },
    };
    match step {
        Err(err) => Err(err),
        Ok(acc2) => if e >= s.len() {
            Ok(acc2)
        } else {
            entries_from(s, e + 1, acc2)
        },
    }
}

#[via_fn]
proof fn entries_from_decreases(s: Seq<char>, i: int, acc: Seq<Seq<char>>) {
    lemma_line_end_bounds(s, i);
}

/// The header that announces the single-buildpack form of the
/// listing: the words `Buildpack URL` alone on a line.
pub open spec fn single_marker() -> Seq<char> {
    seq!['B', 'u', 'i', 'l', 'd', 'p', 'a', 'c', 'k', ' ', 'U', 'R', 'L', '\n']
}

/// Whether the single-buildpack header stands at `i` with a non-empty
/// name after it.
pub open spec fn single_entry_at(s: Seq<char>, i: int) -> bool {
    &&& 0 <= i
    &&& i + 15 <= s.len()
    &&& s.subrange(i, i + 14) == single_marker()
    &&& s[i + 14] != '\n'
}

/// The name after the first single-buildpack header at or after `i`,
/// up to the end of its line; `None` when no header with a non-empty
/// name follows.
pub open spec fn single_capture(s: Seq<char>, i: int) -> Option<Seq<char>>
    decreases s.len() - i,
{
    if i < 0 || i + 14 > s.len() {
        None
    } else if single_entry_at(s, i) {
        Some(s.subrange(i + 14, line_end(s, i + 14)))
    } else {
        single_capture(s, i + 1)
    }
}

/// The observed buildpack sequence a remote listing describes: the
/// numbered lines when any exist, else the single-buildpack form,
/// else nothing.
pub open spec fn buildpacks_of(s: Seq<char>) -> Result<Seq<Seq<char>>, ParseError> {
    match entries_from(s, 0, Seq::empty()) {
        Err(e) => Err(e),
        Ok(r) => if r.len() > 0 {
            Ok(r)
        } else {
            match single_capture(s, 0) {
                Some(name) => Ok(seq![name]),
                None => Ok(Seq::empty()),
            }
        },
    }
}

/// The char index right after the line that starts at `start`.
fn find_line_end(out: &str, start: usize, s_len: usize) -> (e: usize)
    requires
        s_len == out@.len(),
        start <= s_len,
    ensures
        start <= e <= s_len,
        e as int == line_end(out@, start as int),
{
    let ghost s = out@;
    let mut e: usize = start;
    while e < s_len && out.get_char(e) != '\n'
        invariant
            start <= e <= s_len,
            s == out@,
            s_len == s.len(),
            line_end(s, start as int) == line_end(s, e as int),
        decreases s_len - e,
    {
        e += 1;
    }
    e
}

/// The char index right after the run of ASCII digits that starts at
/// `start`, within the line that ends at `e`.
fn digit_run_end(out: &str, start: usize, e: usize) -> (d: usize)
    requires
        e <= out@.len(),
        start <= e,
    ensures
        start <= d <= e,
        d - start == digit_run(out@.subrange(start as int, e as int), 0),
{
    let ghost s = out@;
    let ghost l = s.subrange(start as int, e as int);
    let mut d: usize = start;
    loop
        invariant
            start <= d <= e,
            e <= s.len(),
            s == out@,
            l == s.subrange(start as int, e as int),
            digit_run(l, 0) == digit_run(l, (d - start) as int),
        ensures
            start <= d <= e,
            digit_run(l, 0) == d - start,
        decreases e - d,
    {
        if d >= e {
            proof {
                assert(l.len() == e - start);
            }
            break;
        }
        let c = out.get_char(d);
        let u = c as u32;
        if u < 48 || u > 57 {
            proof {
                assert(l[(d - start) as int] == s[d as int]);
                assert(!is_digit(l[(d - start) as int]));
            }
            break;
        }
        proof {
            assert(l[(d - start) as int] == s[d as int]);
            assert(is_digit(l[(d - start) as int]));
        }
        d += 1;
    }
    d
}

/// The single-buildpack header's character at offset `k`.
fn marker_char(k: usize) -> (c: char)
    requires
        k < 14,
    ensures
        c == single_marker()[k as int],
{
    let c = match k {
        0 => 'B',
        1 => 'u',
        2 => 'i',
        3 => 'l',
        4 => 'd',
        5 => 'p',
        6 => 'a',
        7 => 'c',
        8 => 'k',
        9 => ' ',
        10 => 'U',
        11 => 'R',
        12 => 'L',
        _ => '\n',
    };
    proof {
        assert(single_marker()[k as int] == c);
    }
    c
}

/// Turns a remote buildpack listing into the observed ordered
/// sequence of buildpack identifiers, or rejects it as malformed:
/// exactly what `buildpacks_of` says of the listing's text.
pub fn parse_buildpacks(out: &str) -> (r: Result<Vec<String>, ParseError>)
    ensures
        match r {
            Ok(v) => buildpacks_of(out@) == Ok::<Seq<Seq<char>>, ParseError>(v.deep_view()),
            Err(e) => buildpacks_of(out@) == Err::<Seq<Seq<char>>, ParseError>(e),
        },
{
    let ghost s = out@;
    let s_len = out.unicode_len();
    let mut acc: Vec<String> = Vec::new();
    let mut i: usize = 0;
    proof {
        assert(acc.deep_view() =~= Seq::<Seq<char>>::empty());
    }
    while i < s_len
        invariant
            s == out@,
            s_len == s.len(),
            i <= s_len,
            entries_from(s, 0, Seq::empty()) == entries_from(s, i as int, acc.deep_view()),
        decreases s_len - i,
    {
        let ghost acc0 = acc.deep_view();
        let e = find_line_end(out, i, s_len);
        let ghost l = s.subrange(i as int, e as int);
        proof {
            lemma_line_end_bounds(s, i as int);
        }
        let d = digit_run_end(out, i, e);
        let ghost dl = (d - i) as int;
        proof {
            lemma_digit_run_bounds(l, 0);
        }
        let matched = d > i && e - d > 2 && out.get_char(d) == '.' && out.get_char(d + 1) == ' ';
        proof {
            if d > i && e - d > 2 {
                assert(l[dl] == s[d as int]);
                assert(l[dl + 1] == s[d as int + 1]);
            }
        }
        if matched {
            let ghost digits = l.subrange(0, dl);
            proof {
                assert(digits =~= s.subrange(i as int, d as int));
                assert(line_entry(l) == Some(
                    (decimal_val(digits, 0), l.subrange(dl + 2, l.len() as int)),
                ));
                assert forall|m: int| 0 <= m < digits.len() implies is_digit(
                    #[trigger] digits[m],
                ) by {
                    assert(digits[m] == l[m]);
                }
            }
            let mut val: usize = 0;
            let mut k: usize = i;
            let mut too_big = false;
            proof {
                assert(digits.skip(0) =~= digits);
            }
            while k < d
                invariant_except_break
                    i <= k <= d,
                    !too_big,
                    decimal_val(digits, 0) == decimal_val(
                        digits.skip((k - i) as int),
                        val as int,
                    ),
                invariant
                    d <= e <= s_len,
                    s == out@,
                    s_len == s.len(),
                    digits == s.subrange(i as int, d as int),
                    digits.len() == d - i,
                    forall|m: int| 0 <= m < digits.len() ==> is_digit(#[trigger] digits[m]),
                ensures
                    too_big ==> decimal_val(digits, 0) > usize::MAX as int,
                    !too_big ==> decimal_val(digits, 0) == val as int,
                decreases d - k,
            {
                let c = out.get_char(k);
                let u = c as u32;
                let ghost rem = digits.skip((k - i) as int);
                proof {
                    assert(rem[0] == digits[(k - i) as int]);
                    assert(digits[(k - i) as int] == s[k as int]);
                    assert(is_digit(rem[0]));
                    assert(rem.drop_first() =~= digits.skip((k + 1 - i) as int));
                    assert forall|m: int| 0 <= m < rem.drop_first().len() implies is_digit(
                        #[trigger] rem.drop_first()[m],
                    ) by {
                        assert(rem.drop_first()[m] == digits[m + (k - i) + 1]);
                    }
                }
                let dig = (u - 48) as usize;
                if val > usize::MAX / 10 {
                    proof {
                        assert((val as int) * 10 > usize::MAX as int) by (nonlinear_arith)
                            requires
                                val as int > usize::MAX as int / 10,
                        ;
                        lemma_decimal_val_lower(
                            rem.drop_first(),
                            (val as int) * 10 + (rem[0] as int - 48),
                        );
                    }
                    too_big = true;
                    break ;
                }
                proof {
                    assert((val as int) * 10 <= usize::MAX as int) by (nonlinear_arith)
                        requires
                            val as int <= usize::MAX as int / 10,
                    ;
                }
                let shifted = val * 10;
                if dig > usize::MAX - shifted {
                    proof {
                        lemma_decimal_val_lower(
                            rem.drop_first(),
                            (val as int) * 10 + (rem[0] as int - 48),
                        );
                    }
                    too_big = true;
                    break ;
                }
                val = shifted + dig;
                k += 1;
            }
            if too_big {
                proof {
                    assert(entries_from(s, i as int, acc0) == Err::<Seq<Seq<char>>, ParseError>(
                        ParseError::BadNumber,
                    ));
                }
                return Err(ParseError::BadNumber);
            }
            if val < 1 {
                proof {
                    assert(entries_from(s, i as int, acc0) == Err::<Seq<Seq<char>>, ParseError>(
                        ParseError::BadPosition,
                    ));
                }
                return Err(ParseError::BadPosition);
            }
            let pos = val - 1;
            if pos > acc.len() {
                proof {
                    assert(acc0.len() == acc.len());
                    assert(entries_from(s, i as int, acc0) == Err::<Seq<Seq<char>>, ParseError>(
                        ParseError::BadPosition,
                    ));
                }
                return Err(ParseError::BadPosition);
            }
            let name = out.substring_char(d + 2, e).to_owned();
            proof {
                assert(name@ =~= l.subrange(dl + 2, l.len() as int));
            }
            let ghost accseq = acc@;
            acc.insert(pos, name);
            proof {
                accseq.insert_ensures(pos as int, name);
                acc0.insert_ensures(pos as int, name@);
                assert(acc.deep_view() =~= acc0.insert(pos as int, name@));
            }
        } else {
            proof {
                assert(line_entry(l) is None);
            }
        }
        if e >= s_len {
            i = s_len;
        } else {
            i = e + 1;
        }
    }
    proof {
        assert(entries_from(s, s_len as int, acc.deep_view()) == Ok::<Seq<Seq<char>>, ParseError>(
            acc.deep_view(),
        ));
    }
    if acc.len() > 0 {
        proof {
            assert(acc.deep_view().len() == acc.len());
        }
        return Ok(acc);
    }
    proof {
        assert(acc.deep_view() =~= Seq::<Seq<char>>::empty());
    }
    if s_len >= 14 {
        let limit = s_len - 14;
        let mut p: usize = 0;
        while p <= limit
            invariant
                p <= limit + 1,
                limit == s_len - 14,
                s == out@,
                s_len == s.len(),
                acc.deep_view() =~= Seq::<Seq<char>>::empty(),
                entries_from(s, 0, Seq::empty()) == Ok::<Seq<Seq<char>>, ParseError>(
                    acc.deep_view(),
                ),
                single_capture(s, 0) == single_capture(s, p as int),
            decreases limit + 1 - p,
        {
            let mut q: usize = 0;
            let mut hit = true;
            while q < 14
                invariant_except_break
                    q <= 14,
                    hit,
                    forall|m: int| 0 <= m < q ==> s[p + m] == single_marker()[m],
                invariant
                    p + 14 <= s_len,
                    s == out@,
                    s_len == s.len(),
                ensures
                    hit ==> forall|m: int| 0 <= m < 14 ==> s[p + m] == single_marker()[m],
                    !hit ==> s.subrange(p as int, p as int + 14) != single_marker(),
                decreases 14 - q,
            {
                let mc = marker_char(q);
                if out.get_char(p + q) != mc {
                    proof {
                        assert(s.subrange(p as int, p as int + 14)[q as int] == s[p as int
                            + q as int]);
                    }
                    hit = false;
                    break ;
                }
                q += 1;
            }
            if hit {
                proof {
                    assert(s.subrange(p as int, p as int + 14) =~= single_marker());
                }
                if p + 14 < s_len {
                    let c = out.get_char(p + 14);
                    if c != '\n' {
                        proof {
                            assert(single_entry_at(s, p as int));
                        }
                        let e2 = find_line_end(out, p + 14, s_len);
                        let name = out.substring_char(p + 14, e2).to_owned();
                        let mut found: Vec<String> = Vec::new();
                        found.push(name);
                        proof {
                            assert(found.deep_view() =~= seq![name@]);
                        }
                        return Ok(found);
                    }
                }
                proof {
                    assert(!single_entry_at(s, p as int));
                }
            } else {
                proof {
                    assert(!single_entry_at(s, p as int));
                }
            }
            p += 1;
        }
        proof {
            assert(single_capture(s, (limit + 1) as int) is None);
        }
    }
    let empty: Vec<String> = Vec::new();
    proof {
        assert(single_capture(s, 0) is None);
        assert(empty.deep_view() =~= Seq::<Seq<char>>::empty());
    }
    Ok(empty)
}

} // verus!
