//! Verified text utilities: substring search, splitting a string on a
//! separator token, joining pieces back, line splitting, and decimal
//! rendering and parsing of machine-sized integers.
//!
//! The commit and diff-record encodings are framed with reserved separator
//! tokens, so their round-trip proofs rest on the split/join lemmas here.

use vstd::prelude::*;

verus! {

/// The pattern `pat` occurs in `s` at position `i`.
pub open spec fn is_match(s: Seq<char>, pat: Seq<char>, i: int) -> bool {
    0 <= i && i + pat.len() <= s.len() && s.subrange(i, i + pat.len() as int) == pat
}

/// The position of the leftmost occurrence of `pat` in `s`, if any.
pub open spec fn first_match(s: Seq<char>, pat: Seq<char>) -> Option<int>
    decreases s.len(),
{
    if is_match(s, pat, 0) {
        Some(0)
    } else if s.len() == 0 {
        None
    } else {
        match first_match(s.skip(1), pat) {
            Some(i) => Some(i + 1),
            None => None,
        }
    }
}

proof fn lemma_is_match_skip1(s: Seq<char>, pat: Seq<char>, i: int)
    requires
        s.len() > 0,
        0 <= i,
    ensures
        is_match(s.skip(1), pat, i) == is_match(s, pat, i + 1),
{
    if i + 1 + pat.len() <= s.len() {
        assert(s.skip(1).subrange(i, i + pat.len() as int) =~= s.subrange(
            i + 1,
            i + 1 + pat.len() as int,
        ));
    }
}

/// `first_match` returns the leftmost occurrence, or `None` when there is none.
pub proof fn lemma_first_match(s: Seq<char>, pat: Seq<char>)
    ensures
        match first_match(s, pat) {
            Some(i) => is_match(s, pat, i) && forall|j: int| 0 <= j < i ==> !is_match(s, pat, j),
            None => forall|j: int| !is_match(s, pat, j),
        },
    decreases s.len(),
{
    if is_match(s, pat, 0) {
    } else if s.len() == 0 {
        assert forall|j: int| !is_match(s, pat, j) by {
            if 0 <= j && j + pat.len() <= s.len() {
                assert(j == 0);
            }
        }
    } else {
        lemma_first_match(s.skip(1), pat);
        match first_match(s.skip(1), pat) {
            Some(i) => {
                lemma_is_match_skip1(s, pat, i);
                assert forall|j: int| 0 <= j < i + 1 implies !is_match(s, pat, j) by {
                    if j > 0 {
                        lemma_is_match_skip1(s, pat, j - 1);
                    }
                }
            },
            None => {
                assert forall|j: int| !is_match(s, pat, j) by {
                    if j > 0 {
                        lemma_is_match_skip1(s, pat, j - 1);
                    }
                }
            },
        }
    }
}

/// If `pat` occurs at `i` and nowhere earlier, that is what `first_match` finds.
pub proof fn lemma_first_match_is(s: Seq<char>, pat: Seq<char>, i: int)
    requires
        is_match(s, pat, i),
        forall|j: int| 0 <= j < i ==> !is_match(s, pat, j),
    ensures
        first_match(s, pat) == Some(i),
{
    lemma_first_match(s, pat);
    match first_match(s, pat) {
        Some(k) => {
            if k < i {
            } else if k > i {
            }
        },
        None => {},
    }
}

/// If `pat` occurs nowhere in `s`, `first_match` finds nothing.
pub proof fn lemma_first_match_none(s: Seq<char>, pat: Seq<char>)
    requires
        forall|j: int| !is_match(s, pat, j),
    ensures
        first_match(s, pat) == None::<int>,
{
    lemma_first_match(s, pat);
}

/// `s` cut at every occurrence of the separator `pat`, leftmost first.
///
/// An input without an occurrence is a single piece, so the empty string
/// splits into one empty piece.
pub open spec fn split_seq(s: Seq<char>, pat: Seq<char>) -> Seq<Seq<char>>
    recommends
        pat.len() > 0,
    decreases s.len(),
{
    match first_match(s, pat) {
        None => seq![s],
        Some(i) => if 0 <= i && 0 < i + pat.len() <= s.len() {
            seq![s.subrange(0, i)] + split_seq(s.skip(i + pat.len() as int), pat)
        } else {
            seq![s]
        },
    }
}

/// The pieces re-concatenated with the separator `pat` between them.
pub open spec fn join_seq(pieces: Seq<Seq<char>>, pat: Seq<char>) -> Seq<char>
    decreases pieces.len(),
{
    if pieces.len() == 0 {
        Seq::empty()
    } else if pieces.len() == 1 {
        pieces[0]
    } else {
        pieces[0] + pat + join_seq(pieces.skip(1), pat)
    }
}

/// Splitting is the inverse of joining when no piece contains the
/// separator and the separator's first character recurs nowhere in it.
///
/// The second condition rules out an occurrence that straddles a piece
/// boundary: such an occurrence would have to repeat the separator's
/// first character at a later offset of the separator.
pub proof fn lemma_split_of_join(pieces: Seq<Seq<char>>, pat: Seq<char>)
    requires
        pieces.len() > 0,
        pat.len() > 0,
        forall|d: int| 0 < d < pat.len() ==> #[trigger] pat[d] != pat[0],
        forall|k: int, i: int| 0 <= k < pieces.len() ==> !(#[trigger] is_match(pieces[k], pat, i)),
    ensures
        split_seq(join_seq(pieces, pat), pat) == pieces,
    decreases pieces.len(),
{
    let s = join_seq(pieces, pat);
    let p0 = pieces[0];
    if pieces.len() == 1 {
        assert forall|j: int| !is_match(s, pat, j) by {
            assert(!is_match(pieces[0], pat, j));
        }
        lemma_first_match_none(s, pat);
        assert(split_seq(s, pat) =~= pieces);
    } else {
        let rest = join_seq(pieces.skip(1), pat);
        let l0 = p0.len() as int;
        assert(s =~= p0 + pat + rest);
        assert(is_match(s, pat, l0)) by {
            assert(s.subrange(l0, l0 + pat.len() as int) =~= pat);
        }
        assert forall|j: int| 0 <= j < l0 implies !is_match(s, pat, j) by {
            if is_match(s, pat, j) {
                if j + pat.len() <= l0 {
                    assert(is_match(p0, pat, j)) by {
                        assert(p0.subrange(j, j + pat.len() as int) =~= s.subrange(
                            j,
                            j + pat.len() as int,
                        ));
                    }
                    assert(!is_match(pieces[0], pat, j));
                } else {
                    let d = l0 - j;
                    assert(s.subrange(j, j + pat.len() as int)[d] == s[l0]);
                    assert(s[l0] == pat[0]);
                    assert(pat[d] == pat[0]);
                }
            }
        }
        lemma_first_match_is(s, pat, l0);
        assert(s.subrange(0, l0) =~= p0);
        assert(s.skip(l0 + pat.len() as int) =~= rest);
        assert forall|k: int, i: int| 0 <= k < pieces.skip(1).len() implies !(
        #[trigger] is_match(pieces.skip(1)[k], pat, i)) by {
            assert(pieces.skip(1)[k] == pieces[k + 1]);
            assert(!is_match(pieces[k + 1], pat, i));
        }
        lemma_split_of_join(pieces.skip(1), pat);
        assert(split_seq(s, pat) =~= seq![p0] + split_seq(rest, pat));
        assert(seq![p0] + pieces.skip(1) =~= pieces);
    }
}

/// `pre` is a prefix of `s`.
pub open spec fn is_prefix(pre: Seq<char>, s: Seq<char>) -> bool {
    pre.len() <= s.len() && s.subrange(0, pre.len() as int) == pre
}

/// A decimal digit.
pub open spec fn is_digit(c: char) -> bool {
    '0' <= c && c <= '9'
}

/// The numeric value of a decimal digit.
pub open spec fn digit_val(c: char) -> int {
    c as int - '0' as int
}

/// Every character of `s` is a decimal digit.
pub open spec fn all_digits(s: Seq<char>) -> bool {
    forall|i: int| 0 <= i < s.len() ==> is_digit(#[trigger] s[i])
}

/// The value of a string of decimal digits, most significant first.
pub open spec fn dec_val(s: Seq<char>) -> int
    decreases s.len(),
{
    if s.len() == 0 {
        0
    } else {
        dec_val(s.drop_last()) * 10 + digit_val(s.last())
    }
}

/// What parsing a machine-sized decimal integer yields: the value of a
/// non-empty, all-digit string that fits, and nothing otherwise.
pub open spec fn parse_usize_seq(s: Seq<char>) -> Option<usize> {
    if s.len() > 0 && all_digits(s) && dec_val(s) <= usize::MAX {
        Some(dec_val(s) as usize)
    } else {
        None
    }
}

/// The decimal digit for a value below ten.
pub open spec fn digit_char(d: int) -> char {
    seq!['0', '1', '2', '3', '4', '5', '6', '7', '8', '9'][d]
}

/// The shortest decimal rendering of a non-negative value.
pub open spec fn dec_digits(n: int) -> Seq<char>
    recommends
        n >= 0,
    decreases n,
{
    if n < 10 {
        seq![digit_char(n)]
    } else {
        dec_digits(n / 10) + seq![digit_char(n % 10)]
    }
}

/// A value of a digit string is never negative.
pub proof fn lemma_dec_val_nonneg(s: Seq<char>)
    requires
        all_digits(s),
    ensures
        dec_val(s) >= 0,
    decreases s.len(),
{
    if s.len() > 0 {
        assert(all_digits(s.drop_last())) by {
            assert(forall|i: int|
                0 <= i < s.drop_last().len() ==> #[trigger] s.drop_last()[i] == s[i]);
        }
        lemma_dec_val_nonneg(s.drop_last());
    }
}

/// Extending a digit string cannot shrink its value.
pub proof fn lemma_dec_val_extend(s: Seq<char>, k: int)
    requires
        all_digits(s),
        0 <= k <= s.len(),
    ensures
        dec_val(s.subrange(0, k)) <= dec_val(s),
    decreases s.len() - k,
{
    if k < s.len() {
        let t = s.subrange(0, k + 1);
        assert(all_digits(t)) by {
            assert(forall|i: int| 0 <= i < t.len() ==> #[trigger] t[i] == s[i]);
        }
        assert(t.drop_last() =~= s.subrange(0, k));
        lemma_dec_val_nonneg(t.drop_last());
        assert(dec_val(s.subrange(0, k)) <= dec_val(t)) by {
            assert(dec_val(t) == dec_val(t.drop_last()) * 10 + digit_val(t.last()));
            assert(digit_val(t.last()) >= 0);
        }
        lemma_dec_val_extend(s, k + 1);
    } else {
        assert(s.subrange(0, k) =~= s);
    }
}

/// The decimal rendering of a non-negative value is all digits and reads
/// back as that value.
pub proof fn lemma_dec_digits_val(n: int)
    requires
        n >= 0,
    ensures
        all_digits(dec_digits(n)),
        dec_val(dec_digits(n)) == n,
        dec_digits(n).len() > 0,
    decreases n,
{
    if n < 10 {
        assert(dec_digits(n) =~= seq![digit_char(n)]);
        assert(is_digit(digit_char(n)));
        let w = seq![digit_char(n)];
        assert(w.len() == 1);
        assert(w.drop_last() =~= Seq::<char>::empty());
        assert(dec_val(w.drop_last()) == 0);
        assert(w.last() == digit_char(n));
        assert(dec_val(w) == dec_val(w.drop_last()) * 10 + digit_val(w.last()));
        assert(dec_val(w) == digit_val(digit_char(n)));
        assert(digit_val(digit_char(n)) == n);
    } else {
        lemma_dec_digits_val(n / 10);
        let d = dec_digits(n / 10);
        let w = dec_digits(n);
        assert(w =~= d + seq![digit_char(n % 10)]);
        assert(w.drop_last() =~= d);
        assert(w.last() == digit_char(n % 10));
        assert(is_digit(digit_char(n % 10)));
        assert(all_digits(w)) by {
            assert(forall|i: int| 0 <= i < d.len() ==> w[i] == #[trigger] d[i]);
        }
        assert(dec_val(w) == dec_val(d) * 10 + digit_val(w.last()));
        assert(digit_val(digit_char(n % 10)) == n % 10);
        assert((n / 10) * 10 + n % 10 == n) by (nonlinear_arith);
    }
}

/// Rendering then parsing a machine-sized value gives the value back.
pub proof fn lemma_parse_of_dec_digits(n: usize)
    ensures
        parse_usize_seq(dec_digits(n as int)) == Some(n),
{
    lemma_dec_digits_val(n as int);
}

/// Splitting is also the inverse of joining when the separator's first
/// character appears in no piece at all; the separator may then overlap
/// itself freely.
pub proof fn lemma_split_of_join_free_head(pieces: Seq<Seq<char>>, pat: Seq<char>)
    requires
        pieces.len() > 0,
        pat.len() > 0,
        forall|k: int, i: int|
            0 <= k < pieces.len() && 0 <= i < pieces[k].len() ==> #[trigger] pieces[k][i]
                != pat[0],
    ensures
        split_seq(join_seq(pieces, pat), pat) == pieces,
    decreases pieces.len(),
{
    let s = join_seq(pieces, pat);
    let p0 = pieces[0];
    if pieces.len() == 1 {
        assert forall|j: int| !is_match(s, pat, j) by {
            if 0 <= j && j + pat.len() <= s.len() {
                assert(s.subrange(j, j + pat.len() as int)[0] == s[j]);
                assert(pieces[0][j] != pat[0]);
            }
        }
        lemma_first_match_none(s, pat);
        assert(split_seq(s, pat) =~= pieces);
    } else {
        let rest = join_seq(pieces.skip(1), pat);
        let l0 = p0.len() as int;
        assert(s =~= p0 + pat + rest);
        assert(is_match(s, pat, l0)) by {
            assert(s.subrange(l0, l0 + pat.len() as int) =~= pat);
        }
        assert forall|j: int| 0 <= j < l0 implies !is_match(s, pat, j) by {
            if is_match(s, pat, j) {
                assert(s.subrange(j, j + pat.len() as int)[0] == s[j]);
                assert(pieces[0][j] != pat[0]);
            }
        }
        lemma_first_match_is(s, pat, l0);
        assert(s.subrange(0, l0) =~= p0);
        assert(s.skip(l0 + pat.len() as int) =~= rest);
        assert forall|k: int, i: int|
            0 <= k < pieces.skip(1).len() && 0 <= i < pieces.skip(1)[k].len() implies #[trigger] pieces.skip(
            1,
        )[k][i] != pat[0] by {
            assert(pieces.skip(1)[k] == pieces[k + 1]);
            assert(pieces[k + 1][i] != pat[0]);
        }
        lemma_split_of_join_free_head(pieces.skip(1), pat);
        assert(split_seq(s, pat) =~= seq![p0] + split_seq(rest, pat));
        assert(seq![p0] + pieces.skip(1) =~= pieces);
    }
}

/// A split always yields at least one piece.
pub proof fn lemma_split_seq_nonempty(s: Seq<char>, pat: Seq<char>)
    ensures
        split_seq(s, pat).len() >= 1,
{
    match first_match(s, pat) {
        None => {},
        Some(i) => {},
    }
}

/// Appending a piece extends a join by one separator and the piece.
pub proof fn lemma_join_push(pieces: Seq<Seq<char>>, x: Seq<char>, pat: Seq<char>)
    ensures
        join_seq(pieces.push(x), pat) == if pieces.len() == 0 {
            x
        } else {
            join_seq(pieces, pat) + pat + x
        },
    decreases pieces.len(),
{
    if pieces.len() == 0 {
        assert(pieces.push(x) =~= seq![x]);
        assert(join_seq(pieces.push(x), pat) =~= x);
    } else if pieces.len() == 1 {
        assert(pieces.push(x)[0] == pieces[0]);
        assert(pieces.push(x).skip(1) =~= seq![x]);
        assert(join_seq(seq![x], pat) == x);
        assert(join_seq(pieces.push(x), pat) =~= join_seq(pieces, pat) + pat + x);
    } else {
        assert(pieces.push(x).skip(1) =~= pieces.skip(1).push(x));
        lemma_join_push(pieces.skip(1), x, pat);
        assert(pieces.push(x)[0] == pieces[0]);
        assert(join_seq(pieces.push(x), pat) == pieces[0] + pat + join_seq(
            pieces.skip(1).push(x),
            pat,
        ));
        assert(join_seq(pieces.push(x), pat) =~= join_seq(pieces, pat) + pat + x);
    }
}

/// The views of the strings in `v`.
pub open spec fn views_of(v: Seq<String>) -> Seq<Seq<char>> {
    v.map_values(|p: String| p@)
}

/// The line-wise reading of `s`: pieces between `'\n'` characters, with no
/// empty piece after a terminating line break. The empty string has no
/// lines.
pub open spec fn lines_seq(s: Seq<char>) -> Seq<Seq<char>> {
    if s.len() == 0 {
        Seq::empty()
    } else {
        let p = split_seq(s, seq!['\n']);
        if p.last().len() == 0 {
            p.drop_last()
        } else {
            p
        }
    }
}

/// Whether `pat` occurs at position `i` of `s`, by direct comparison.
fn match_at(s: &str, pat: &str, i: usize) -> (r: bool)
    requires
        i + pat@.len() <= s@.len(),
    ensures
        r == is_match(s@, pat@, i as int),
{
    let n = s.unicode_len();
    let m = pat.unicode_len();
    let mut j: usize = 0;
    while j < m
        invariant
            j <= m,
            n == s@.len(),
            m == pat@.len(),
            i + m <= n,
            forall|t: int| 0 <= t < j ==> s@[i + t] == pat@[t],
        decreases m - j,
    {
        if s.get_char(i + j) != pat.get_char(j) {
            proof {
                if is_match(s@, pat@, i as int) {
                    assert(s@.subrange(i as int, i + m as int)[j as int] == pat@[j as int]);
                }
            }
            return false;
        }
        j += 1;
    }
    proof {
        assert(s@.subrange(i as int, i + m as int) =~= pat@);
    }
    true
}

/// The leftmost occurrence of `pat` in `s`, if any.
pub fn find_sub(s: &str, pat: &str) -> (r: Option<usize>)
    requires
        pat@.len() > 0,
    ensures
        match r {
            Some(i) => is_match(s@, pat@, i as int) && (forall|j: int|
                0 <= j < i ==> !is_match(s@, pat@, j)),
            None => forall|j: int| !is_match(s@, pat@, j),
        },
{
    let n = s.unicode_len();
    let m = pat.unicode_len();
    if m > n {
        return None;
    }
    let mut i: usize = 0;
    while i <= n - m
        invariant
            n == s@.len(),
            m == pat@.len(),
            0 < m <= n,
            i <= n - m + 1,
            forall|j: int| 0 <= j < i ==> !is_match(s@, pat@, j),
        decreases n - m + 1 - i,
    {
        if match_at(s, pat, i) {
            return Some(i);
        }
        i += 1;
    }
    None
}

/// Cut `s` at every occurrence of the separator `pat`, leftmost first.
pub fn split_on(s: &str, pat: &str) -> (r: Vec<String>)
    requires
        pat@.len() > 0,
    ensures
        views_of(r@) == split_seq(s@, pat@),
{
    let mut pieces: Vec<String> = Vec::new();
    let mut rest: String = s.to_owned();
    let m = pat.unicode_len();
    loop
        invariant
            m == pat@.len(),
            0 < m,
            views_of(pieces@) + split_seq(rest@, pat@) =~= split_seq(s@, pat@),
        decreases rest@.len(),
    {
        let ghost old_pieces = pieces@;
        let ghost old_rest = rest@;
        match find_sub(rest.as_str(), pat) {
            Some(i) => {
                let piece = rest.as_str().substring_char(0, i).to_owned();
                let n = rest.unicode_len();
                let tail = rest.as_str().substring_char(i + m, n).to_owned();
                pieces.push(piece);
                proof {
                    lemma_first_match_is(old_rest, pat@, i as int);
                    assert(tail@ =~= old_rest.skip(i + m as int));
                    assert(views_of(pieces@) =~= views_of(old_pieces).push(
                        old_rest.subrange(0, i as int),
                    ));
                    assert(views_of(pieces@) + split_seq(tail@, pat@) =~= split_seq(s@, pat@));
                }
                rest = tail;
            },
            None => {
                pieces.push(rest);
                proof {
                    lemma_first_match_none(old_rest, pat@);
                    assert(split_seq(old_rest, pat@) =~= seq![old_rest]);
                    assert(views_of(pieces@) =~= views_of(old_pieces).push(old_rest));
                    assert(views_of(pieces@) =~= split_seq(s@, pat@));
                }
                return pieces;
            },
        }
    }
}

/// Join the pieces with the separator `pat` between them.
pub fn join_with(pieces: &Vec<String>, pat: &str) -> (r: String)
    ensures
        r@ == join_seq(views_of(pieces@), pat@),
{
    let mut out = String::new();
    if pieces.len() == 0 {
        return out;
    }
    out.append(pieces[0].as_str());
    let mut k: usize = 1;
    proof {
        assert(views_of(pieces@).subrange(0, 1) =~= seq![pieces@[0]@]);
    }
    while k < pieces.len()
        invariant
            1 <= k <= pieces@.len(),
            out@ == join_seq(views_of(pieces@).subrange(0, k as int), pat@),
        decreases pieces@.len() - k,
    {
        let ghost done = views_of(pieces@).subrange(0, k as int);
        out.append(pat);
        out.append(pieces[k].as_str());
        proof {
            lemma_join_push(done, pieces@[k as int]@, pat@);
            assert(done.push(pieces@[k as int]@) =~= views_of(pieces@).subrange(0, k + 1));
        }
        k += 1;
    }
    proof {
        assert(views_of(pieces@).subrange(0, pieces@.len() as int) =~= views_of(pieces@));
    }
    out
}

/// Character-wise string equality.
pub fn str_eq(a: &str, b: &str) -> (r: bool)
    ensures
        r == (a@ == b@),
{
    let n = a.unicode_len();
    if n != b.unicode_len() {
        return false;
    }
    let mut i: usize = 0;
    while i < n
        invariant
            i <= n,
            n == a@.len(),
            n == b@.len(),
            forall|t: int| 0 <= t < i ==> a@[t] == b@[t],
        decreases n - i,
    {
        if a.get_char(i) != b.get_char(i) {
            return false;
        }
        i += 1;
    }
    proof {
        assert(a@ =~= b@);
    }
    true
}

/// Whether `pre` is a prefix of `s`.
pub fn has_prefix(s: &str, pre: &str) -> (r: bool)
    ensures
        r == is_prefix(pre@, s@),
{
    if pre.unicode_len() > s.unicode_len() {
        return false;
    }
    match_at(s, pre, 0)
}

/// Parse a machine-sized decimal integer: digits only, no sign, no excess.
pub fn parse_usize(s: &str) -> (r: Option<usize>)
    ensures
        r == parse_usize_seq(s@),
{
    let n = s.unicode_len();
    if n == 0 {
        return None;
    }
    let mut i: usize = 0;
    while i < n
        invariant
            i <= n,
            n == s@.len(),
            forall|t: int| 0 <= t < i ==> is_digit(#[trigger] s@[t]),
        decreases n - i,
    {
        let c = s.get_char(i);
        if c < '0' || c > '9' {
            proof {
                assert(!is_digit(s@[i as int]));
            }
            return None;
        }
        i += 1;
    }
    assert(all_digits(s@));
    let mut acc: usize = 0;
    i = 0;
    while i < n
        invariant
            i <= n,
            n == s@.len(),
            all_digits(s@),
            acc == dec_val(s@.subrange(0, i as int)),
        decreases n - i,
    {
        let ghost pre = s@.subrange(0, i as int);
        let c = s.get_char(i);
        proof {
            assert(is_digit(s@[i as int]));
        }
        let d: usize = ((c as u32) - 48) as usize;
        let ghost ext = s@.subrange(0, i + 1);
        proof {
            assert(ext.drop_last() =~= pre);
            assert(ext.last() == s@[i as int]);
            assert(dec_val(ext) == acc * 10 + d);
        }
        acc = match acc.checked_mul(10) {
            Some(v) => match v.checked_add(d) {
                Some(w) => w,
                None => {
                    proof {
                        lemma_dec_val_extend(s@, i + 1);
                        assert(s@.subrange(0, n as int) =~= s@);
                        assert(dec_val(s@) > usize::MAX);
                    }
                    return None;
                },
            },
            None => {
                proof {
                    lemma_dec_val_nonneg(ext);
                    lemma_dec_val_extend(s@, i + 1);
                    assert(s@.subrange(0, n as int) =~= s@);
                    assert(dec_val(s@) > usize::MAX);
                }
                return None;
            },
        };
        i += 1;
    }
    proof {
        assert(s@.subrange(0, n as int) =~= s@);
    }
    Some(acc)
}

/// The decimal digit below ten, as text.
fn digit_str(d: usize) -> (r: &'static str)
    requires
        d < 10,
    ensures
        r@ == seq![digit_char(d as int)],
{
    match d {
        0 => {
            proof {
                reveal_strlit("0");
                assert("0"@ =~= seq![digit_char(0)]);
            }
            "0"
        },
        1 => {
            proof {
                reveal_strlit("1");
                assert("1"@ =~= seq![digit_char(1)]);
            }
            "1"
        },
        2 => {
            proof {
                reveal_strlit("2");
                assert("2"@ =~= seq![digit_char(2)]);
            }
            "2"
        },
        3 => {
            proof {
                reveal_strlit("3");
                assert("3"@ =~= seq![digit_char(3)]);
            }
            "3"
        },
        4 => {
            proof {
                reveal_strlit("4");
                assert("4"@ =~= seq![digit_char(4)]);
            }
            "4"
        },
        5 => {
            proof {
                reveal_strlit("5");
                assert("5"@ =~= seq![digit_char(5)]);
            }
            "5"
        },
        6 => {
            proof {
                reveal_strlit("6");
                assert("6"@ =~= seq![digit_char(6)]);
            }
            "6"
        },
        7 => {
            proof {
                reveal_strlit("7");
                assert("7"@ =~= seq![digit_char(7)]);
            }
            "7"
        },
        8 => {
            proof {
                reveal_strlit("8");
                assert("8"@ =~= seq![digit_char(8)]);
            }
            "8"
        },
        _ => {
            proof {
                reveal_strlit("9");
                assert("9"@ =~= seq![digit_char(9)]);
            }
            "9"
        },
    }
}

/// Render a machine-sized value in decimal.
pub fn usize_to_string(n: usize) -> (r: String)
    ensures
        r@ == dec_digits(n as int),
    decreases n,
{
    if n < 10 {
        digit_str(n).to_owned()
    } else {
        let mut s = usize_to_string(n / 10);
        s.append(digit_str(n % 10));
        proof {
            assert(dec_digits((n / 10) as int) + seq![digit_char((n % 10) as int)] =~= dec_digits(
                n as int,
            ));
        }
        s
    }
}

/// Cut `s` into lines at `'\n'`, dropping the empty piece a terminating
/// line break leaves behind.
pub fn lines_of(s: &str) -> (r: Vec<String>)
    ensures
        views_of(r@) == lines_seq(s@),
{
    if s.unicode_len() == 0 {
        let r: Vec<String> = Vec::new();
        proof {
            assert(views_of(r@) =~= lines_seq(s@));
        }
        return r;
    }
    proof {
        reveal_strlit("\n");
        assert("\n"@ =~= seq!['\n']);
    }
    let mut pieces = split_on(s, "\n");
    proof {
        lemma_split_seq_nonempty(s@, seq!['\n']);
    }
    let last_len = pieces[pieces.len() - 1].as_str().unicode_len();
    if last_len == 0 {
        let ghost before = pieces@;
        pieces.pop();
        proof {
            assert(views_of(pieces@) =~= views_of(before).drop_last());
            assert(views_of(before).drop_last() =~= split_seq(s@, seq!['\n']).drop_last());
        }
    }
    pieces
}

} // verus!
