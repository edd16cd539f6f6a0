//! Characters, lines and small text utilities.
//!
//! The library models a line of text as a `Vec<char>` whose view is a
//! `Seq<char>`.  Everything here is ordinary verified code; the only
//! trusted item is the wrapper around `String::push`, used to turn a
//! character vector back into a `String` at the crate boundary.

use vstd::prelude::*;
use vstd::std_specs::iter::IteratorSpec;

verus! {

/// Collect the characters of a string slice into a vector.
pub fn str_to_chars(s: &str) -> (r: Vec<char>)
    ensures
        r@ == s@,
{
    let mut it = s.chars();
    let mut r: Vec<char> = Vec::new();
    loop
        invariant
            it.obeys_prophetic_iter_laws(),
            it.decrease() is Some,
            r@ + it.remaining() == s@,
        ensures
            r@ == s@,
        decreases it.decrease()->0,
    {
        match it.next() {
            Some(c) => {
                r.push(c);
                proof {
                    assert(r@ + it.remaining() =~= s@);
                }
            },
            None => {
                proof {
                    assert(r@ + it.remaining() =~= r@);
                }
                break ;
            },
        }
    }
    r
}

/// Relies on `String::push`: appends one character to the string.
#[verifier::external_body]
fn push_char(s: &mut String, c: char)
    ensures
        final(s)@ == old(s)@.push(c),
{
    s.push(c);
}

/// Build a `String` from a vector of characters.
pub fn chars_to_string(v: &Vec<char>) -> (r: String)
    ensures
        r@ == v@,
{
    let mut r = String::new();
    let n = v.len();
    let mut i: usize = 0;
    while i < n
        invariant
            0 <= i <= n,
            n == v@.len(),
            r@ == v@.take(i as int),
        decreases n - i,
    {
        push_char(&mut r, v[i]);
        i += 1;
        proof {
            assert(r@ =~= v@.take(i as int));
        }
    }
    proof {
        assert(v@.take(n as int) =~= v@);
    }
    r
}

/// Append the characters of `src` to `dst`.
pub fn append_chars(dst: &mut Vec<char>, src: &Vec<char>)
    ensures
        final(dst)@ == old(dst)@ + src@,
{
    let n = src.len();
    let mut i: usize = 0;
    while i < n
        invariant
            0 <= i <= n,
            n == src@.len(),
            dst@ == old(dst)@ + src@.take(i as int),
        decreases n - i,
    {
        dst.push(src[i]);
        i += 1;
        proof {
            assert(dst@ =~= old(dst)@ + src@.take(i as int));
        }
    }
    proof {
        assert(old(dst)@ + src@.take(n as int) =~= old(dst)@ + src@);
    }
}

/// Append the characters of a string slice to `dst`.
pub fn append_str(dst: &mut Vec<char>, s: &str)
    ensures
        final(dst)@ == old(dst)@ + s@,
{
    let w = str_to_chars(s);
    append_chars(dst, &w);
}

/// Compare a character vector with a string slice.
pub fn chars_eq_str(v: &Vec<char>, s: &str) -> (r: bool)
    ensures
        r == (v@ == s@),
{
    let w = str_to_chars(s);
    if v.len() != w.len() {
        return false;
    }
    let n = v.len();
    let mut i: usize = 0;
    while i < n
        invariant
            0 <= i <= n,
            n == v@.len() == w@.len(),
            w@ == s@,
            forall|j: int| 0 <= j < i ==> v@[j] == w@[j],
        decreases n - i,
    {
        if v[i] != w[i] {
            return false;
        }
        i += 1;
    }
    proof {
        assert(v@ =~= s@);
    }
    true
}

/// Compare two character vectors.
pub fn chars_eq(a: &Vec<char>, b: &Vec<char>) -> (r: bool)
    ensures
        r == (a@ == b@),
{
    if a.len() != b.len() {
        return false;
    }
    let n = a.len();
    let mut i: usize = 0;
    while i < n
        invariant
            0 <= i <= n,
            n == a@.len() == b@.len(),
            forall|j: int| 0 <= j < i ==> a@[j] == b@[j],
        decreases n - i,
    {
        if a[i] != b[i] {
            return false;
        }
        i += 1;
    }
    proof {
        assert(a@ =~= b@);
    }
    true
}

/// Copy the range `[from, to)` of a vector.
pub fn subvec(v: &Vec<char>, from: usize, to: usize) -> (r: Vec<char>)
    requires
        from <= to <= v@.len(),
    ensures
        r@ == v@.subrange(from as int, to as int),
{
    let mut r: Vec<char> = Vec::new();
    let mut i: usize = from;
    while i < to
        invariant
            from <= i <= to <= v@.len(),
            r@ == v@.subrange(from as int, i as int),
        decreases to - i,
    {
        r.push(v[i]);
        i += 1;
        proof {
            assert(r@ =~= v@.subrange(from as int, i as int));
        }
    }
    r
}

/// The whitespace characters recognized by the library: the Unicode
/// white-space code points.
pub open spec fn is_space(c: char) -> bool {
    ||| ('\u{9}' <= c && c <= '\u{d}')
    ||| c == ' '
    ||| c == '\u{85}'
    ||| c == '\u{a0}'
    ||| c == '\u{1680}'
    ||| ('\u{2000}' <= c && c <= '\u{200a}')
    ||| c == '\u{2028}'
    ||| c == '\u{2029}'
    ||| c == '\u{202f}'
    ||| c == '\u{205f}'
    ||| c == '\u{3000}'
}

/// Executable test for [`is_space`].
pub fn space_char(c: char) -> (r: bool)
    ensures
        r == is_space(c),
{
    ('\u{9}' <= c && c <= '\u{d}') || c == ' ' || c == '\u{85}' || c == '\u{a0}' || c
        == '\u{1680}' || ('\u{2000}' <= c && c <= '\u{200a}') || c == '\u{2028}' || c
        == '\u{2029}' || c == '\u{202f}' || c == '\u{205f}' || c == '\u{3000}'
}

/// Word-shaped characters: ASCII letters, digits and the underscore.
pub open spec fn is_word_char(c: char) -> bool {
    ('a' <= c && c <= 'z') || ('A' <= c && c <= 'Z') || ('0' <= c && c <= '9') || c == '_'
}

/// Executable test for [`is_word_char`].
pub fn word_char(c: char) -> (r: bool)
    ensures
        r == is_word_char(c),
{
    ('a' <= c && c <= 'z') || ('A' <= c && c <= 'Z') || ('0' <= c && c <= '9') || c == '_'
}

/// The sequence with its leading whitespace removed.
pub open spec fn trim_start_spec(s: Seq<char>) -> Seq<char>
    decreases s.len(),
{
    if s.len() == 0 {
        s
    } else if is_space(s[0]) {
        trim_start_spec(s.drop_first())
    } else {
        s
    }
}

/// The sequence with its trailing whitespace removed.
pub open spec fn trim_end_spec(s: Seq<char>) -> Seq<char>
    decreases s.len(),
{
    if s.len() == 0 {
        s
    } else if is_space(s.last()) {
        trim_end_spec(s.drop_last())
    } else {
        s
    }
}

/// The sequence with whitespace removed from both ends.
pub open spec fn trim_spec(s: Seq<char>) -> Seq<char> {
    trim_end_spec(trim_start_spec(s))
}

pub proof fn lemma_trim_start_subrange(s: Seq<char>, i: int)
    requires
        0 <= i <= s.len(),
        forall|j: int| 0 <= j < i ==> is_space(s[j]),
        i < s.len() ==> !is_space(s[i]),
    ensures
        trim_start_spec(s) == s.subrange(i, s.len() as int),
    decreases i,
{
    if i == 0 {
        if s.len() == 0 {
            assert(trim_start_spec(s) =~= s.subrange(0, s.len() as int));
        } else {
            assert(trim_start_spec(s) == s);
            assert(s =~= s.subrange(0, s.len() as int));
        }
    } else {
        assert(is_space(s[0]));
        let t = s.drop_first();
        assert(forall|j: int| 0 <= j < i - 1 ==> is_space(#[trigger] t[j]));
        lemma_trim_start_subrange(t, i - 1);
        assert(t.subrange(i - 1, t.len() as int) =~= s.subrange(i, s.len() as int));
    }
}

proof fn lemma_trim_end_subrange(s: Seq<char>, i: int)
    requires
        0 <= i <= s.len(),
        forall|j: int| i <= j < s.len() ==> is_space(s[j]),
        i > 0 ==> !is_space(s[i - 1]),
    ensures
        trim_end_spec(s) == s.subrange(0, i),
    decreases s.len(),
{
    if i == s.len() {
        if s.len() == 0 {
            assert(trim_end_spec(s) =~= s.subrange(0, i));
        } else {
            assert(trim_end_spec(s) == s);
            assert(s =~= s.subrange(0, i));
        }
    } else {
        assert(is_space(s.last()));
        let t = s.drop_last();
        lemma_trim_end_subrange(t, i);
        assert(t.subrange(0, i) =~= s.subrange(0, i));
    }
}

/// Remove leading and trailing whitespace from a line.
pub fn trim(v: &Vec<char>) -> (r: Vec<char>)
    ensures
        r@ == trim_spec(v@),
{
    let n = v.len();
    let mut start: usize = 0;
    while start < n && space_char(v[start])
        invariant
            0 <= start <= n,
            n == v@.len(),
            forall|j: int| 0 <= j < start ==> is_space(v@[j]),
        decreases n - start,
    {
        start += 1;
    }
    proof {
        lemma_trim_start_subrange(v@, start as int);
    }
    let mut end: usize = n;
    while end > start && space_char(v[end - 1])
        invariant
            start <= end <= n,
            n == v@.len(),
            forall|j: int| end <= j < n ==> is_space(v@[j]),
        decreases end,
    {
        end -= 1;
    }
    let ghost st = v@.subrange(start as int, n as int);
    proof {
        assert(forall|j: int| end - start <= j < st.len() ==> is_space(#[trigger] st[j]));
        assert(end > start ==> !is_space(st[end - start - 1]));
        lemma_trim_end_subrange(st, end - start);
    }
    let mut r: Vec<char> = Vec::new();
    let mut i: usize = start;
    while i < end
        invariant
            start <= i <= end,
            end <= v@.len(),
            r@ == v@.subrange(start as int, i as int),
        decreases end - i,
    {
        r.push(v[i]);
        i += 1;
        proof {
            assert(r@ =~= v@.subrange(start as int, i as int));
        }
    }
    proof {
        assert(v@.subrange(start as int, end as int) =~= st.subrange(0, end - start));
    }
    r
}

/// Decimal digit characters.
pub open spec fn is_digit(c: char) -> bool {
    '0' <= c && c <= '9'
}

/// Executable test for [`is_digit`].
pub fn digit_char(c: char) -> (r: bool)
    ensures
        r == is_digit(c),
{
    '0' <= c && c <= '9'
}

/// All characters of the sequence are decimal digits.
pub open spec fn all_digits(s: Seq<char>) -> bool {
    forall|i: int| 0 <= i < s.len() ==> is_digit(s[i])
}

/// Numeric value of a digit sequence, most significant digit first.
pub open spec fn digits_val(s: Seq<char>) -> int
    decreases s.len(),
{
    if s.len() == 0 {
        0
    } else {
        digits_val(s.drop_last()) * 10 + (s.last() as int - '0' as int)
    }
}

proof fn lemma_digits_val_nonneg(s: Seq<char>)
    requires
        all_digits(s),
    ensures
        digits_val(s) >= 0,
    decreases s.len(),
{
    if s.len() > 0 {
        assert(all_digits(s.drop_last()));
        lemma_digits_val_nonneg(s.drop_last());
    }
}

proof fn lemma_digits_val_prefix(s: Seq<char>, k: int)
    requires
        all_digits(s),
        0 <= k <= s.len(),
    ensures
        digits_val(s) >= digits_val(s.take(k)),
    decreases s.len() - k,
{
    if k == s.len() {
        assert(s.take(k) =~= s);
    } else {
        lemma_digits_val_prefix(s, k + 1);
        assert(s.take(k + 1).drop_last() =~= s.take(k));
        assert(all_digits(s.take(k)));
        lemma_digits_val_nonneg(s.take(k));
        assert(digits_val(s.take(k + 1)) >= digits_val(s.take(k)));
    }
}

/// The sequence with one leading `'+'` removed, if present.
pub open spec fn strip_plus(s: Seq<char>) -> Seq<char> {
    if s.len() > 0 && s[0] == '+' {
        s.drop_first()
    } else {
        s
    }
}

/// What parsing an unsigned decimal number accepts: an optional leading
/// `'+'`, then one or more digits whose value fits in `usize`.
pub open spec fn parse_usize_spec(s: Seq<char>) -> Option<usize> {
    let t = strip_plus(s);
    if t.len() > 0 && all_digits(t) && digits_val(t) <= usize::MAX {
        Some(digits_val(t) as usize)
    } else {
        None
    }
}

/// Parse an unsigned decimal number, rejecting anything malformed or out
/// of range.
pub fn parse_usize(v: &Vec<char>) -> (r: Option<usize>)
    ensures
        r == parse_usize_spec(v@),
{
    let n = v.len();
    let start: usize = if n > 0 && v[0] == '+' {
        1
    } else {
        0
    };
    let ghost t = strip_plus(v@);
    proof {
        assert(t =~= v@.subrange(start as int, n as int));
    }
    if start == n {
        return None;
    }
    let mut val: usize = 0;
    let mut i: usize = start;
    while i < n
        invariant
            start <= i <= n,
            n == v@.len(),
            start <= 1,
            t == strip_plus(v@),
            t == v@.subrange(start as int, n as int),
            all_digits(t.take(i - start)),
            val == digits_val(t.take(i - start)),
        decreases n - i,
    {
        let c = v[i];
        if !digit_char(c) {
            proof {
                assert(t[i - start] == c);
                assert(!all_digits(t));
            }
            return None;
        }
        let d: usize = (c as u32 as usize) - 48;
        let wide: u128 = (val as u128) * 10 + (d as u128);
        proof {
            assert(t.take(i + 1 - start).drop_last() =~= t.take(i - start));
            assert(t.take(i + 1 - start).last() == c);
            assert(all_digits(t.take(i + 1 - start)));
        }
        if wide > usize::MAX as u128 {
            proof {
                if all_digits(t) {
                    lemma_digits_val_prefix(t, i + 1 - start);
                }
            }
            return None;
        }
        val = wide as usize;
        i += 1;
    }
    proof {
        assert(t.take(n - start) =~= t);
    }
    Some(val)
}

/// The digit character for a value below ten.
pub open spec fn dec_digit(d: int) -> char {
    if d == 0 {
        '0'
    } else if d == 1 {
        '1'
    } else if d == 2 {
        '2'
    } else if d == 3 {
        '3'
    } else if d == 4 {
        '4'
    } else if d == 5 {
        '5'
    } else if d == 6 {
        '6'
    } else if d == 7 {
        '7'
    } else if d == 8 {
        '8'
    } else {
        '9'
    }
}

/// Decimal representation of a nonnegative number, without sign or
/// leading zeros.
pub open spec fn dec_str(n: int) -> Seq<char>
    decreases n,
{
    if n < 10 {
        seq![dec_digit(n)]
    } else {
        dec_str(n / 10).push(dec_digit(n % 10))
    }
}

/// Render a number in decimal.
pub fn usize_to_chars(n: usize) -> (r: Vec<char>)
    ensures
        r@ == dec_str(n as int),
{
    let mut tmp: Vec<char> = Vec::new();
    let mut m: usize = n;
    loop
        invariant_except_break
            dec_str(n as int) == dec_str(m as int) + tmp@.reverse(),
        ensures
            dec_str(n as int) == tmp@.reverse(),
        decreases m,
    {
        let d = m % 10;
        let c = match d {
            0 => '0',
            1 => '1',
            2 => '2',
            3 => '3',
            4 => '4',
            5 => '5',
            6 => '6',
            7 => '7',
            8 => '8',
            _ => '9',
        };
        proof {
            assert(c == dec_digit(m as int % 10));
            assert(tmp@.push(c).reverse() =~= seq![c] + tmp@.reverse());
            if m < 10 {
                assert(dec_str(m as int) == seq![dec_digit(m as int)]);
            }
        }
        tmp.push(c);
        if m < 10 {
            break ;
        }
        m = m / 10;
    }
    let mut r: Vec<char> = Vec::new();
    let len = tmp.len();
    let mut i: usize = len;
    while i > 0
        invariant
            0 <= i <= len,
            len == tmp@.len(),
            r@ =~= tmp@.subrange(i as int, len as int).reverse(),
        decreases i,
    {
        i -= 1;
        r.push(tmp[i]);
        proof {
            assert(r@ =~= tmp@.subrange(i as int, len as int).reverse());
        }
    }
    proof {
        assert(tmp@.subrange(0, len as int) =~= tmp@);
    }
    r
}

/// The views of a sequence of character vectors.
pub open spec fn lines_view(vs: Seq<Vec<char>>) -> Seq<Seq<char>> {
    vs.map_values(|v: Vec<char>| v@)
}

/// Index of the first newline in `s`, or `s.len()` if there is none.
pub open spec fn find_newline(s: Seq<char>) -> int
    decreases s.len(),
{
    if s.len() == 0 {
        0
    } else if s[0] == '\n' {
        0
    } else {
        1 + find_newline(s.drop_first())
    }
}

proof fn lemma_find_newline(s: Seq<char>)
    ensures
        0 <= find_newline(s) <= s.len(),
        find_newline(s) < s.len() ==> s[find_newline(s)] == '\n',
        forall|j: int| 0 <= j < find_newline(s) ==> s[j] != '\n',
    decreases s.len(),
{
    if s.len() > 0 && s[0] != '\n' {
        lemma_find_newline(s.drop_first());
        assert(forall|j: int|
            1 <= j < find_newline(s) ==> s[j] == s.drop_first()[j - 1] && s[j] != '\n');
    }
}

/// The sequence with one trailing carriage return removed, if present.
pub open spec fn strip_cr(s: Seq<char>) -> Seq<char> {
    if s.len() > 0 && s.last() == '\r' {
        s.drop_last()
    } else {
        s
    }
}

/// How text splits into lines: segments end at newline characters, a
/// carriage return directly before a newline is dropped, and a final
/// newline does not open one more empty line.
pub open spec fn lines_spec(s: Seq<char>) -> Seq<Seq<char>>
    decreases s.len(),
    via lines_spec_decreases
{
    if s.len() == 0 {
        Seq::empty()
    } else {
        let i = find_newline(s);
        if i == s.len() {
            seq![s]
        } else {
            seq![strip_cr(s.take(i))] + lines_spec(s.skip(i + 1))
        }
    }
}

#[via_fn]
proof fn lines_spec_decreases(s: Seq<char>) {
    lemma_find_newline(s);
}

/// Split text into lines, as [`lines_spec`] describes.
pub fn split_lines(text: &Vec<char>) -> (r: Vec<Vec<char>>)
    ensures
        lines_view(r@) == lines_spec(text@),
{
    let n = text.len();
    let mut r: Vec<Vec<char>> = Vec::new();
    let mut cur: Vec<char> = Vec::new();
    let ghost mut seg_start: int = 0;
    proof {
        assert(text@.skip(0) =~= text@);
        assert(lines_view(r@) =~= Seq::<Seq<char>>::empty());
    }
    let mut j: usize = 0;
    while j < n
        invariant
            0 <= seg_start <= j <= n,
            n == text@.len(),
            cur@ == text@.subrange(seg_start, j as int),
            forall|k: int| seg_start <= k < j ==> text@[k] != '\n',
            lines_spec(text@) == lines_view(r@) + lines_spec(text@.skip(seg_start)),
        decreases n - j,
    {
        let c = text[j];
        if c == '\n' {
            let ghost suffix = text@.skip(seg_start);
            let ghost olddv = lines_view(r@);
            proof {
                lemma_find_newline(suffix);
                assert(suffix[j - seg_start] == '\n');
                assert(forall|k: int|
                    0 <= k < j - seg_start ==> suffix[k] == text@[k + seg_start] && suffix[k]
                        != '\n');
                assert(find_newline(suffix) == j - seg_start);
                assert(suffix.take(j - seg_start) =~= cur@);
                assert(suffix.skip(j - seg_start + 1) =~= text@.skip(j + 1));
                assert(lines_spec(suffix) == seq![strip_cr(cur@)] + lines_spec(
                    text@.skip(j + 1),
                ));
            }
            let mut line = cur;
            cur = Vec::new();
            if line.len() > 0 && line[line.len() - 1] == '\r' {
                line.pop();
            }
            proof {
                assert(line@ == strip_cr(suffix.take(j - seg_start)));
            }
            r.push(line);
            proof {
                assert(lines_view(r@) =~= olddv.push(line@));
                seg_start = j + 1;
                assert(lines_view(r@) + lines_spec(text@.skip(seg_start)) =~= olddv
                    + lines_spec(suffix));
            }
        } else {
            cur.push(c);
        }
        j += 1;
        proof {
            assert(cur@ =~= text@.subrange(seg_start, j as int));
        }
    }
    if cur.len() > 0 {
        let ghost suffix = text@.skip(seg_start);
        let ghost olddv = lines_view(r@);
        proof {
            lemma_find_newline(suffix);
            assert(forall|k: int|
                0 <= k < suffix.len() ==> suffix[k] == text@[k + seg_start] && suffix[k] != '\n');
            assert(find_newline(suffix) == suffix.len());
            assert(suffix =~= cur@);
            assert(lines_spec(suffix) == seq![cur@]);
        }
        r.push(cur);
        proof {
            assert(lines_view(r@) =~= olddv + seq![suffix]);
        }
    } else {
        proof {
            assert(text@.skip(seg_start).len() == 0);
            assert(lines_view(r@) + lines_spec(text@.skip(seg_start)) =~= lines_view(r@));
        }
    }
    r
}

/// Text formed by the given lines, each terminated by a newline.
pub open spec fn unlines_spec(ls: Seq<Seq<char>>) -> Seq<char>
    decreases ls.len(),
{
    if ls.len() == 0 {
        Seq::empty()
    } else {
        ls[0] + seq!['\n'] + unlines_spec(ls.drop_first())
    }
}

pub proof fn lemma_unlines_push(ls: Seq<Seq<char>>, x: Seq<char>)
    ensures
        unlines_spec(ls.push(x)) == unlines_spec(ls) + x + seq!['\n'],
    decreases ls.len(),
{
    if ls.len() == 0 {
        assert(ls.push(x)[0] == x);
        assert(ls.push(x).drop_first() =~= Seq::<Seq<char>>::empty());
        assert(unlines_spec(Seq::<Seq<char>>::empty()) == Seq::<char>::empty());
        assert(unlines_spec(ls.push(x)) == x + seq!['\n'] + Seq::<char>::empty());
        assert(x + seq!['\n'] + Seq::<char>::empty() =~= Seq::<char>::empty() + x + seq!['\n']);
        assert(unlines_spec(ls) == Seq::<char>::empty());
    } else {
        assert(ls.push(x).drop_first() =~= ls.drop_first().push(x));
        lemma_unlines_push(ls.drop_first(), x);
        assert(ls.push(x)[0] == ls[0]);
        assert(unlines_spec(ls.push(x)) == ls[0] + seq!['\n'] + (unlines_spec(ls.drop_first())
            + x + seq!['\n']));
        assert(ls[0] + seq!['\n'] + (unlines_spec(ls.drop_first()) + x + seq!['\n']) =~= (ls[0]
            + seq!['\n'] + unlines_spec(ls.drop_first())) + x + seq!['\n']);
    }
}

/// Join lines into one text, each line followed by a newline.
pub fn unlines(lines: &Vec<Vec<char>>) -> (r: Vec<char>)
    ensures
        r@ == unlines_spec(lines_view(lines@)),
{
    let n = lines.len();
    let mut r: Vec<char> = Vec::new();
    let mut i: usize = 0;
    while i < n
        invariant
            0 <= i <= n,
            n == lines@.len(),
            r@ == unlines_spec(lines_view(lines@).take(i as int)),
        decreases n - i,
    {
        append_chars(&mut r, &lines[i]);
        r.push('\n');
        proof {
            let dv = lines_view(lines@);
            assert(dv.take(i + 1).drop_last() =~= dv.take(i as int));
            assert(dv.take(i + 1) =~= dv.take(i as int).push(dv[i as int]));
            lemma_unlines_push(dv.take(i as int), dv[i as int]);
            assert(dv[i as int] == lines@[i as int]@);
            assert(r@ =~= unlines_spec(dv.take(i + 1)));
        }
        i += 1;
    }
    proof {
        assert(lines_view(lines@).take(n as int) =~= lines_view(lines@));
    }
    r
}

/// `needle` occurs in `hay` starting at position `i`.
pub open spec fn matches_at(hay: Seq<char>, needle: Seq<char>, i: int) -> bool {
    0 <= i && i + needle.len() <= hay.len() && hay.subrange(i, i + needle.len()) == needle
}

/// `needle` occurs somewhere in `hay`.
pub open spec fn contains_seq(hay: Seq<char>, needle: Seq<char>) -> bool {
    exists|i: int| matches_at(hay, needle, i)
}

/// Test whether `needle` occurs in `hay` at position `i`.
pub(crate) fn check_match_at(hay: &Vec<char>, needle: &Vec<char>, i: usize) -> (r: bool)
    requires
        i + needle@.len() <= hay@.len(),
    ensures
        r == matches_at(hay@, needle@, i as int),
{
    let n = hay.len();
    let m = needle.len();
    let mut k: usize = 0;
    while k < m
        invariant
            0 <= k <= m,
            m == needle@.len(),
            n == hay@.len(),
            i + m <= n,
            forall|j: int| 0 <= j < k ==> hay@[i + j] == needle@[j],
        decreases m - k,
    {
        if hay[i + k] != needle[k] {
            proof {
                assert(hay@.subrange(i as int, i + m) != needle@) by {
                    assert(hay@.subrange(i as int, i + m)[k as int] == hay@[i + k]);
                }
            }
            return false;
        }
        k += 1;
    }
    proof {
        assert(hay@.subrange(i as int, i + m) =~= needle@);
    }
    true
}

/// First position at which `needle` occurs in `hay`, if any.
pub fn find_sub(hay: &Vec<char>, needle: &Vec<char>) -> (r: Option<usize>)
    ensures
        match r {
            Some(i) => matches_at(hay@, needle@, i as int) && forall|j: int|
                0 <= j < i ==> !matches_at(hay@, needle@, j),
            None => !contains_seq(hay@, needle@),
        },
{
    let n = hay.len();
    let m = needle.len();
    if m > n {
        proof {
            assert(forall|i: int| !matches_at(hay@, needle@, i));
        }
        return None;
    }
    if m == 0 {
        proof {
            assert(hay@.subrange(0, 0) =~= needle@);
        }
        return Some(0);
    }
    let mut i: usize = 0;
    while i <= n - m
        invariant
            0 <= i <= n - m + 1,
            1 <= m <= n,
            n == hay@.len(),
            m == needle@.len(),
            forall|j: int| 0 <= j < i ==> !matches_at(hay@, needle@, j),
        decreases n - i,
    {
        if check_match_at(hay, needle, i) {
            return Some(i);
        }
        i += 1;
    }
    proof {
        assert(forall|j: int| j >= i ==> !matches_at(hay@, needle@, j));
    }
    None
}

/// Whether `needle` occurs somewhere in `hay`.
pub fn contains_sub(hay: &Vec<char>, needle: &Vec<char>) -> (r: bool)
    ensures
        r == contains_seq(hay@, needle@),
{
    match find_sub(hay, needle) {
        Some(_) => true,
        None => false,
    }
}

/// `hay` ends with `needle`.
pub open spec fn ends_with_spec(hay: Seq<char>, needle: Seq<char>) -> bool {
    needle.len() <= hay.len() && matches_at(hay, needle, hay.len() - needle.len())
}

/// Test whether `hay` ends with `needle`.
pub fn ends_with(hay: &Vec<char>, needle: &Vec<char>) -> (r: bool)
    ensures
        r == ends_with_spec(hay@, needle@),
{
    let n = hay.len();
    let m = needle.len();
    if m > n {
        return false;
    }
    check_match_at(hay, needle, n - m)
}

/// `hay` starts with `needle`.
pub open spec fn starts_with_spec(hay: Seq<char>, needle: Seq<char>) -> bool {
    needle.len() <= hay.len() && matches_at(hay, needle, 0)
}

/// Test whether `hay` starts with `needle`.
pub fn starts_with(hay: &Vec<char>, needle: &Vec<char>) -> (r: bool)
    ensures
        r == starts_with_spec(hay@, needle@),
{
    let n = hay.len();
    let m = needle.len();
    if m > n {
        return false;
    }
    check_match_at(hay, needle, 0)
}

} // verus!
